//! The inverted index: build, query and prune.

use vstd::prelude::*;
use vstd::seq_lib::to_multiset_contains;
use vstd::string::StringExecFns;
use crate::arena::Arena;
use crate::codec::{
    decode_index, encode_index, entries_fit, error_text, index_json, index_of_json, restores,
    IndexError, IndexRecord, IndexRecordView,
};
use crate::index_view::IndexView;
use crate::postings::{ascending, lemma_posting_map, posting_map, PostingTable};
use crate::score::{
    any_positive, descending, hits_view, idf_of, lemma_ranked, rank, ranked, Idf, Scored, Tf,
    TfIdf,
};
use crate::term_counts::{lemma_count_in, occurrences, TermCounts};
use crate::text::{lowercase_text, tokens};
use crate::vocabulary::lemma_index_of;

verus! {

/// The names and texts of a corpus as plain sequences.
pub open spec fn corpus(documents: Seq<(String, String)>) -> Seq<(Seq<char>, Seq<char>)> {
    Seq::new(documents.len(), |i: int| (documents[i].0@, documents[i].1@))
}

/// The lowercased texts of a corpus, in its order.
pub open spec fn lowercased(documents: Seq<(String, String)>) -> Seq<Seq<char>> {
    Seq::new(documents.len(), |i: int| lowercase_text(documents[i].1@))
}

/// The postings `postings` after the terms `done` of a new document `doc`
/// were entered, each with its count from `counts`.
spec fn merged(
    postings: Map<Seq<char>, Map<nat, nat>>,
    done: Seq<Seq<char>>,
    counts: Map<Seq<char>, nat>,
    doc: nat,
) -> Map<Seq<char>, Map<nat, nat>> {
    Map::new(
        |term: Seq<char>| postings.contains_key(term) || done.contains(term),
        |term: Seq<char>|
            if done.contains(term) {
                (if postings.contains_key(term) {
                    postings[term]
                } else {
                    Map::empty()
                }).insert(doc, counts[term])
            } else {
                postings[term]
            },
    )
}

/// Strings as their characters.
pub open spec fn texts(strings: Seq<String>) -> Seq<Seq<char>> {
    Seq::new(strings.len(), |i: int| strings[i]@)
}

/// Scored documents without their keys, as plain sequences.
pub open spec fn scored_view(hits: Seq<(String, Scored)>) -> Seq<(Seq<char>, Seq<TfIdf>)> {
    Seq::new(hits.len(), |i: int| (hits[i].0@, hits[i].1.weights@))
}

/// A ranking as plain sequences.
pub open spec fn ranking_view(ranking: Seq<(String, Vec<TfIdf>)>) -> Seq<(Seq<char>, Seq<TfIdf>)> {
    Seq::new(ranking.len(), |i: int| (ranking[i].0@, ranking[i].1@))
}

/// Whether one of the first `upto` entries of a posting list names `doc`.
spec fn names_doc(list: Seq<(usize, usize)>, upto: int, doc: int) -> bool {
    exists|k: int| 0 <= k < upto && (#[trigger] list[k]).0 == doc
}

/// An inverted index over a corpus: for every term the documents that
/// contain it, and for every document its name and its length in tokens.
/// Documents are numbered in the order in which they were added.
pub struct InvertedIndex {
    postings: PostingTable,
    doc_names: Vec<String>,
    doc_lengths: Vec<usize>,
}

impl View for InvertedIndex {
    type V = IndexView;

    /// The postings, names and lengths that the index holds.
    closed spec fn view(&self) -> IndexView {
        IndexView {
            postings: self.postings@,
            doc_names: Seq::new(self.doc_names@.len(), |i: int| self.doc_names@[i]@),
            doc_lengths: Seq::new(self.doc_lengths@.len(), |i: int| self.doc_lengths@[i] as nat),
        }
    }
}

impl InvertedIndex {
    /// The posting table is in order and the index is valid as a value.
    pub closed spec fn wf(&self) -> bool {
        &&& self.postings.wf()
        &&& self@.valid()
    }

    /// A well-formed index is valid as a value, and a `usize` can hold the
    /// number of its documents, the length of each, and with that every
    /// count that the postings hold.
    pub proof fn lemma_valid(&self)
        requires
            self.wf(),
        ensures
            self@.valid(),
            self@.doc_names.len() <= usize::MAX,
            forall|doc: int|
                0 <= doc < self@.doc_lengths.len() ==> #[trigger] self@.doc_lengths[doc]
                    <= usize::MAX,
            forall|term: Seq<char>, doc: nat|
                self@.postings.contains_key(term) && #[trigger] self@.postings[term].contains_key(
                    doc,
                ) ==> self@.postings[term][doc] <= usize::MAX,
    {
        assert(self.doc_names@.len() == self.doc_names.len());
    }

    /// An index without documents and terms.
    pub fn new() -> (index: Self)
        ensures
            index.wf(),
            index@ == IndexView::empty(),
    {
        let index = InvertedIndex {
            postings: PostingTable::new(),
            doc_names: Vec::new(),
            doc_lengths: Vec::new(),
        };
        assert(index@.doc_names =~= Seq::<Seq<char>>::empty());
        assert(index@.doc_lengths =~= Seq::<nat>::empty());
        index
    }

    /// The number of documents.
    pub fn doc_count(&self) -> (n: usize)
        requires
            self.wf(),
        ensures
            n == self@.doc_names.len(),
            n == self@.doc_lengths.len(),
    {
        self.doc_names.len()
    }

    /// The name of the document `doc`.
    pub fn doc_name(&self, doc: usize) -> (name: &str)
        requires
            self.wf(),
            doc < self@.doc_names.len(),
        ensures
            name@ == self@.doc_names[doc as int],
    {
        self.doc_names[doc].as_str()
    }

    /// The number of tokens of the document `doc`.
    pub fn doc_length(&self, doc: usize) -> (length: usize)
        requires
            self.wf(),
            doc < self@.doc_lengths.len(),
        ensures
            length == self@.doc_lengths[doc as int],
    {
        self.doc_lengths[doc]
    }

    /// The number of indexed terms.
    pub fn indexed_terms(&self) -> (n: usize)
        requires
            self.wf(),
        ensures
            n == self.postings().terms().len(),
            n == 0 <==> self@.postings == Map::<Seq<char>, Map<nat, nat>>::empty(),
    {
        proof {
            self.postings.lemma_wf();
            if self.postings.terms().len() > 0 {
                assert(self@.postings.contains_key(self.postings.terms()[0]));
            } else {
                assert forall|t: Seq<char>| !self@.postings.contains_key(t) by {
                    if self@.postings.contains_key(t) {
                        assert(self.postings.terms().contains(t));
                    }
                }
                assert(self@.postings =~= Map::<Seq<char>, Map<nat, nat>>::empty());
            }
        }
        self.postings.len()
    }

    /// The posting table of the index.
    pub closed spec fn postings(&self) -> PostingTable {
        self.postings
    }

    /// How often `term` occurs in the document `doc`, 0 where it does not.
    pub fn occurrences_in(&self, term: &str, doc: usize) -> (count: usize)
        requires
            self.wf(),
        ensures
            count == self@.term_count(term@, doc as nat),
    {
        match self.postings.find(term) {
            Some(slot) => {
                let list = self.postings.list(slot);
                proof {
                    lemma_posting_map(list@);
                }
                let mut j: usize = 0;
                while j < list.len()
                    invariant
                        j <= list.len(),
                        forall|k: int| 0 <= k < j ==> (#[trigger] list@[k]).0 != doc,
                        self@.postings.contains_key(term@),
                        posting_map(list@) == self@.postings[term@],
                        forall|k: int|
                            0 <= k < list@.len() ==> posting_map(list@).contains_key(
                                (#[trigger] list@[k]).0 as nat,
                            ) && posting_map(list@)[list@[k].0 as nat] == list@[k].1,
                    decreases list.len() - j,
                {
                    if list[j].0 == doc {
                        return list[j].1;
                    }
                    j = j + 1;
                }
                proof {
                    if posting_map(list@).contains_key(doc as nat) {
                        let k = choose|k: int| 0 <= k < list@.len() && (#[trigger] list@[k]).0 == doc;
                        assert(list@[k].0 != doc);
                    }
                }
                0
            },
            None => 0,
        }
    }

    /// Adds one document, which gets the next free number: its text is cut
    /// into tokens as a [`crate::crawler::Crawler`] cuts it, its length is
    /// the number of tokens, and every term among them gets a posting with
    /// the number of its occurrences.
    pub fn add_document(&mut self, name: String, text: &str)
        requires
            old(self).wf(),
        ensures
            final(self).wf(),
            final(self)@ == old(self)@.with_document(name@, tokens(text@, false)),
    {
        let ghost before = self@;
        let ghost toks = tokens(text@, false);
        let ghost name_chars = name@;
        let doc = self.doc_names.len();
        let counts = TermCounts::of_text(text);
        self.doc_names.push(name);
        self.doc_lengths.push(counts.total_words());
        let n = counts.len();
        let mut i: usize = 0;
        proof {
            counts.lemma_wf();
            assert(self@.doc_names =~= before.doc_names.push(name_chars));
            assert(self@.doc_lengths =~= before.doc_lengths.push(toks.len()));
            assert(self.postings@ =~= merged(
                before.postings,
                counts.terms().take(0),
                counts@,
                doc as nat,
            ));
        }
        while i < n
            invariant
                i <= n == counts.terms().len(),
                counts.wf(),
                counts@ == occurrences(toks),
                before.valid(),
                doc == before.doc_names.len(),
                self.postings.wf(),
                self@.doc_names == before.doc_names.push(name_chars),
                self@.doc_lengths == before.doc_lengths.push(toks.len()),
                self.postings@ == merged(
                    before.postings,
                    counts.terms().take(i as int),
                    counts@,
                    doc as nat,
                ),
            decreases n - i,
        {
            let term = counts.term(i);
            let count = counts.count_at(i);
            let ghost done = counts.terms().take(i as int);
            let ghost next = counts.terms().take(i + 1);
            proof {
                counts.lemma_wf();
                lemma_index_of(counts.terms(), i as int);
                assert(!done.contains(term@)) by {
                    if done.contains(term@) {
                        let k = done.index_of(term@);
                        assert(counts.terms()[k] == counts.terms()[i as int]);
                    }
                }
                assert forall|t: Seq<char>| next.contains(t) <==> (t == term@ || done.contains(
                    t,
                )) by {
                    if next.contains(t) {
                        let k = next.index_of(t);
                        if k < i {
                            assert(done[k] == t);
                        }
                    }
                    if done.contains(t) {
                        let k = done.index_of(t);
                        assert(next[k] == t);
                    }
                    if t == term@ {
                        assert(next[i as int] == t);
                    }
                }
            }
            self.postings.append(term, doc, count);
            proof {
                assert(self.postings@ =~= merged(before.postings, next, counts@, doc as nat));
            }
            i = i + 1;
        }
        proof {
            let all = counts.terms();
            assert(all.take(n as int) =~= all);
            let target = before.with_document(name_chars, toks);
            assert forall|t: Seq<char>| all.contains(t) <==> counts@.contains_key(t) by {}
            assert(self.postings@ =~= target.postings);
            self.postings.lemma_wf();
            assert forall|t: Seq<char>, d: nat|
                self@.postings.contains_key(t) && #[trigger] self@.postings[t].contains_key(
                    d,
                ) implies d < self@.doc_names.len() && 1 <= self@.postings[t][d]
                <= self@.doc_lengths[d as int] by {
                lemma_count_in(toks, t);
                if before.postings.contains_key(t) && before.postings[t].contains_key(d) {
                    assert(d < doc);
                }
            }
        }
    }

    /// Replaces the index by the index of a corpus. Each document is a name
    /// and a text; the text is lowercased and stored in the arena, and the
    /// document is added from the stored text, in the order of the corpus.
    pub fn build(&mut self, documents: &Vec<(String, String)>, arena: &mut Arena)
        ensures
            final(self).wf(),
            final(self)@ == IndexView::built(corpus(documents@)),
            final(arena)@ == old(arena)@ + lowercased(documents@),
    {
        *self = InvertedIndex::new();
        let mut i: usize = 0;
        proof {
            assert(corpus(documents@).take(0) =~= Seq::<(Seq<char>, Seq<char>)>::empty());
            assert(arena@ =~= old(arena)@ + lowercased(documents@).take(0));
        }
        while i < documents.len()
            invariant
                i <= documents.len(),
                self.wf(),
                self@ == IndexView::built(corpus(documents@).take(i as int)),
                arena@ == old(arena)@ + lowercased(documents@).take(i as int),
            decreases documents.len() - i,
        {
            let lower = documents[i].1.as_str().to_lowercase();
            let name = documents[i].0.clone();
            proof {
                let now = corpus(documents@).take(i + 1);
                assert(now.drop_last() =~= corpus(documents@).take(i as int));
                assert(now.last() == (documents@[i as int].0@, documents@[i as int].1@));
                assert(old(arena)@ + lowercased(documents@).take(i + 1) =~= (old(arena)@
                    + lowercased(documents@).take(i as int)).push(lower@));
            }
            let stored = arena.allocate(lower);
            self.add_document(name, stored);
            i = i + 1;
        }
        proof {
            assert(corpus(documents@).take(i as int) =~= corpus(documents@));
            assert(lowercased(documents@).take(i as int) =~= lowercased(documents@));
        }
    }

    /// A term frequency: `query_count` occurrences among `total_words`
    /// tokens.
    pub fn compute_tf(query_count: usize, total_words: usize) -> (tf: Tf)
        ensures
            tf == (Tf { count: query_count, total: total_words }),
    {
        Tf { count: query_count, total: total_words }
    }

    /// An inverse document frequency: the logarithm of `doc_count` over
    /// `containing_docs`, and 0 where no document contains the term.
    pub fn compute_idf(doc_count: usize, containing_docs: usize) -> (idf: Idf)
        ensures
            idf == idf_of(doc_count, containing_docs),
    {
        if containing_docs == 0 {
            Idf::Zero
        } else {
            Idf::Ln { docs: doc_count, containing: containing_docs }
        }
    }

    /// The product of a term frequency and an inverse document frequency.
    pub fn compute_tf_idf(tf: Tf, idf: Idf) -> (product: TfIdf)
        ensures
            product == (TfIdf { tf, idf }),
    {
        TfIdf { tf, idf }
    }
}

impl InvertedIndex {
    /// Scores every document against the query terms and returns those
    /// whose score is not 0, the highest score first, each with its name,
    /// its score and the number that the score was evaluated to.
    ///
    /// A score is the sum of the weights that it lists, as
    /// [`InvertedIndex::scores`] gives them. What number a sum of weights
    /// comes to is for `evaluate` to say: it is called once on every score,
    /// and the documents are ordered by the keys that it returns, the
    /// greatest first. Documents of the same key stand in the order of
    /// their numbers.
    pub fn recon<F: Fn(&Vec<TfIdf>) -> u64>(&self, queries: Vec<String>, evaluate: F) -> (ranking:
        Vec<(String, Scored)>)
        requires
            self.wf(),
            forall|weights: Vec<TfIdf>| call_requires(evaluate, (&weights,)),
        ensures
            ranking@.len() == self@.ranking(texts(queries@)).len(),
            forall|i: int|
                0 <= i < ranking@.len() ==> call_ensures(
                    evaluate,
                    (&(#[trigger] ranking@[i]).1.weights,),
                    ranking@[i].1.key,
                ),
            descending(hits_view(ranking@)),
            exists|listed: Seq<(String, Scored)>|
                #[trigger] scored_view(listed) == self@.ranking(texts(queries@)) && hits_view(
                    ranking@,
                ) == ranked(hits_view(listed)),
    {
        let mut listed = self.scores(queries);
        let ghost target = ranking_view(listed@);
        let n = listed.len();
        let mut keyed: Vec<(String, Scored)> = Vec::new();
        let mut i: usize = 0;
        while i < n
            invariant
                i <= n == listed@.len() == target.len(),
                keyed@.len() == i,
                forall|weights: Vec<TfIdf>| call_requires(evaluate, (&weights,)),
                forall|k: int| i <= k < n ==> #[trigger] ranking_view(listed@)[k] == target[k],
                forall|k: int| 0 <= k < i ==> #[trigger] scored_view(keyed@)[k] == target[k],
                forall|k: int|
                    0 <= k < i ==> call_ensures(
                        evaluate,
                        (&(#[trigger] keyed@[k]).1.weights,),
                        keyed@[k].1.key,
                    ),
            decreases n - i,
        {
            let mut entry: (String, Vec<TfIdf>) = (String::new(), Vec::new());
            proof {
                assert(ranking_view(listed@)[i as int] == target[i as int]);
            }
            let ghost before = ranking_view(listed@);
            core::mem::swap(&mut listed[i], &mut entry);
            let name = entry.0;
            let weights = entry.1;
            let key = evaluate(&weights);
            let ghost done = scored_view(keyed@);
            keyed.push((name, Scored { weights, key }));
            proof {
                assert forall|k: int| i + 1 <= k < n implies #[trigger] ranking_view(listed@)[k]
                    == target[k] by {
                    assert(ranking_view(listed@)[k] == before[k]);
                }
                assert forall|k: int| 0 <= k < i + 1 implies #[trigger] scored_view(keyed@)[k]
                    == target[k] by {
                    if k < i {
                        assert(scored_view(keyed@)[k] == done[k]);
                    }
                }
            }
            i = i + 1;
        }
        let ghost unordered = keyed@;
        let ranking = rank(keyed);
        proof {
            let before = hits_view(unordered);
            let after = hits_view(ranking@);
            assert(scored_view(unordered) =~= target);
            lemma_ranked(before);
            assert forall|j: int| 0 <= j < ranking@.len() implies call_ensures(
                evaluate,
                (&(#[trigger] ranking@[j]).1.weights,),
                ranking@[j].1.key,
            ) by {
                assert(after.contains(after[j]));
                to_multiset_contains(after, after[j]);
                to_multiset_contains(before, after[j]);
                let k = choose|k: int| 0 <= k < before.len() && before[k] == after[j];
                assert(unordered[k].1 == ranking@[j].1);
            }
        }
        ranking
    }

    /// Scores every document against the query terms and returns those
    /// whose score is not 0, in the order of their numbers, each with its
    /// name and its score.
    ///
    /// A score is the sum of the weights that it lists: one for every query
    /// term that the document contains, in the order of the query; a term
    /// that stands twice in the query counts twice. Terms that the index
    /// does not hold add nothing. The terms are taken as they are: bringing
    /// them into the form of indexed terms is the caller's part.
    pub fn scores(&self, queries: Vec<String>) -> (ranking: Vec<(String, Vec<TfIdf>)>)
        requires
            self.wf(),
        ensures
            ranking_view(ranking@) == self@.ranking(texts(queries@)),
    {
        let ghost view = self@;
        let ghost qs = texts(queries@);
        let n = self.doc_names.len();
        let mut scores: Vec<Vec<TfIdf>> = Vec::new();
        let mut d: usize = 0;
        while d < n
            invariant
                d <= n,
                scores@.len() == d,
                forall|k: int| 0 <= k < d ==> (#[trigger] scores@[k])@ == Seq::<TfIdf>::empty(),
            decreases n - d,
        {
            scores.push(Vec::new());
            d = d + 1;
        }
        let mut q: usize = 0;
        proof {
            assert(qs.take(0) =~= Seq::<Seq<char>>::empty());
        }
        while q < queries.len()
            invariant
                q <= queries.len(),
                self.wf(),
                view == self@,
                qs == texts(queries@),
                n == self.doc_names@.len(),
                scores@.len() == n,
                forall|k: int|
                    0 <= k < n ==> (#[trigger] scores@[k])@ == view.doc_score(
                        qs.take(q as int),
                        k as nat,
                    ),
            decreases queries.len() - q,
        {
            let ghost term = qs[q as int];
            let ghost sofar = qs.take(q as int);
            proof {
                assert(qs.take(q + 1).drop_last() =~= sofar);
                assert(qs.take(q + 1).last() == term);
            }
            match self.postings.find(queries[q].as_str()) {
                Some(slot) => {
                    let list = self.postings.list(slot);
                    let idf = Self::compute_idf(n, list.len());
                    let mut j: usize = 0;
                    proof {
                        lemma_posting_map(list@);
                    }
                    while j < list.len()
                        invariant
                            j <= list.len(),
                            self.wf(),
                            view == self@,
                            n == self.doc_names@.len(),
                            scores@.len() == n,
                            ascending(list@),
                            view.postings.contains_key(term),
                            posting_map(list@) == view.postings[term],
                            list@.len() == view.postings[term].dom().len(),
                            idf == idf_of(n, list@.len() as usize),
                            forall|k: int|
                                0 <= k < list@.len() ==> posting_map(list@).contains_key(
                                    (#[trigger] list@[k]).0 as nat,
                                ) && posting_map(list@)[list@[k].0 as nat] == list@[k].1,
                            forall|k: int|
                                0 <= k < n ==> (#[trigger] scores@[k])@ == if names_doc(
                                    list@,
                                    j as int,
                                    k,
                                ) {
                                    view.doc_score(sofar, k as nat).push(
                                        view.weight(term, k as nat),
                                    )
                                } else {
                                    view.doc_score(sofar, k as nat)
                                },
                        decreases list.len() - j,
                    {
                        let doc = list[j].0;
                        let count = list[j].1;
                        proof {
                            assert(view.postings[term].contains_key(list@[j as int].0 as nat));
                            assert(!names_doc(list@, j as int, doc as int)) by {
                                if names_doc(list@, j as int, doc as int) {
                                    let k = choose|k: int|
                                        0 <= k < j && (#[trigger] list@[k]).0 == doc;
                                    assert(list@[k].0 < list@[j as int].0);
                                }
                            }
                            assert(names_doc(list@, j + 1, doc as int)) by {
                                assert(list@[j as int].0 == doc);
                            }
                            assert forall|k: int| 0 <= k < n && k != doc implies names_doc(
                                list@,
                                j + 1,
                                k,
                            ) == names_doc(list@, j as int, k) by {
                                if names_doc(list@, j + 1, k) {
                                    let i = choose|i: int|
                                        0 <= i < j + 1 && (#[trigger] list@[i]).0 == k;
                                    assert(i < j);
                                }
                                if names_doc(list@, j as int, k) {
                                    let i = choose|i: int|
                                        0 <= i < j && (#[trigger] list@[i]).0 == k;
                                    assert(list@[i].0 == k);
                                }
                            }
                        }
                        let tf = Self::compute_tf(count, self.doc_lengths[doc]);
                        let weight = Self::compute_tf_idf(tf, idf);
                        assert(weight == view.weight(term, doc as nat));
                        scores[doc].push(weight);
                        j = j + 1;
                    }
                    proof {
                        assert forall|k: int| 0 <= k < n implies (#[trigger] scores@[k])@
                            == view.doc_score(qs.take(q + 1), k as nat) by {
                            if names_doc(list@, list@.len() as int, k) {
                                let i = choose|i: int|
                                    0 <= i < list@.len() && (#[trigger] list@[i]).0 == k;
                                assert(view.postings[term].contains_key(list@[i].0 as nat));
                            }
                            if view.term_count(term, k as nat) > 0 {
                                let i = choose|i: int|
                                    0 <= i < list@.len() && (#[trigger] list@[i]).0 == k as nat;
                                assert(list@[i].0 == k);
                            }
                        }
                    }
                },
                None => {},
            }
            q = q + 1;
        }
        let mut ranking: Vec<(String, Vec<TfIdf>)> = Vec::new();
        let mut d: usize = 0;
        proof {
            assert(qs.take(q as int) =~= qs);
            assert(ranking_view(ranking@) =~= view.ranking_upto(qs, 0));
        }
        while d < n
            invariant
                d <= n,
                view == self@,
                n == self.doc_names@.len(),
                scores@.len() == n,
                forall|k: int|
                    d <= k < n ==> (#[trigger] scores@[k])@ == view.doc_score(qs, k as nat),
                ranking_view(ranking@) == view.ranking_upto(qs, d as nat),
            decreases n - d,
        {
            let ghost before = ranking_view(ranking@);
            if any_positive(&scores[d]) {
                let mut score = Vec::new();
                core::mem::swap(&mut scores[d], &mut score);
                ranking.push((self.doc_names[d].clone(), score));
                proof {
                    assert(ranking_view(ranking@) =~= before.push(
                        (view.doc_names[d as int], view.doc_score(qs, d as nat)),
                    ));
                }
            }
            d = d + 1;
        }
        ranking
    }

    /// Removes every term that `cutoff` documents or more contain.
    /// Documents, names and lengths stay as they are.
    pub fn prune(&mut self, cutoff: usize)
        requires
            old(self).wf(),
        ensures
            final(self).wf(),
            final(self)@ == old(self)@.pruned(cutoff as nat),
    {
        self.postings.retain_below(cutoff);
        proof {
            assert(self@.doc_names =~= old(self)@.doc_names);
            assert(self@.doc_lengths =~= old(self)@.doc_lengths);
            assert forall|term: Seq<char>| #[trigger]
                self@.postings.contains_key(term) implies old(self)@.postings.contains_key(term)
                && self@.postings[term] == old(self)@.postings[term] by {}
            assert forall|term: Seq<char>, doc: nat|
                self@.postings.contains_key(term) && #[trigger] self@.postings[term].contains_key(
                    doc,
                ) implies doc < self@.doc_names.len() && 1 <= self@.postings[term][doc]
                <= self@.doc_lengths[doc as int] by {
                assert(old(self)@.postings[term].contains_key(doc));
            }
        }
    }
}

/// A copy of a posting list.
fn copy_list(list: &Vec<(usize, usize)>) -> (copy: Vec<(usize, usize)>)
    ensures
        copy@ == list@,
{
    let mut copy: Vec<(usize, usize)> = Vec::new();
    let mut j: usize = 0;
    while j < list.len()
        invariant
            j <= list.len(),
            copy@ == list@.take(j as int),
        decreases list.len() - j,
    {
        copy.push(list[j]);
        assert(list@.take(j + 1) =~= list@.take(j as int).push(list@[j as int]));
        j = j + 1;
    }
    assert(list@.take(j as int) =~= list@);
    copy
}

/// Whether a posting list is ascending and fits the documents.
fn check_list(list: &Vec<(usize, usize)>, doc_lengths: &Vec<usize>) -> (ok: bool)
    ensures
        ok == (ascending(list@) && entries_fit(list@, doc_lengths@)),
{
    let mut j: usize = 0;
    while j < list.len()
        invariant
            j <= list.len(),
            ascending(list@.take(j as int)),
            entries_fit(list@.take(j as int), doc_lengths@),
        decreases list.len() - j,
    {
        let doc = list[j].0;
        let count = list[j].1;
        if doc >= doc_lengths.len() || count < 1 || count > doc_lengths[doc] {
            assert(!entries_fit(list@, doc_lengths@)) by {
                assert(list@[j as int].0 == doc);
            }
            return false;
        }
        if j > 0 && list[j - 1].0 >= doc {
            assert(!ascending(list@)) by {
                assert(list@[j - 1].0 >= list@[j as int].0);
            }
            return false;
        }
        proof {
            let before = list@.take(j as int);
            let now = list@.take(j + 1);
            assert forall|a: int, b: int| 0 <= a < b < now.len() implies (#[trigger] now[a]).0 < (
            #[trigger] now[b]).0 by {
                if b < j {
                    assert(before[a] == now[a] && before[b] == now[b]);
                } else if a < j - 1 {
                    assert(before[a].0 < before[j - 1].0);
                }
            }
            assert forall|k: int| 0 <= k < now.len() implies (#[trigger] now[k]).0
                < doc_lengths@.len() && 1 <= now[k].1 <= doc_lengths@[now[k].0 as int] by {
                if k < j {
                    assert(before[k] == now[k]);
                }
            }
        }
        j = j + 1;
    }
    assert(list@.take(j as int) =~= list@);
    true
}

impl InvertedIndex {
    /// The persisted form of the index: terms and posting lists in the
    /// order of the posting table.
    pub closed spec fn record(&self) -> IndexRecordView {
        IndexRecordView {
            postings: Seq::new(
                self.postings.terms().len(),
                |i: int| (self.postings.terms()[i], self.postings.lists()[i]),
            ),
            doc_names: self@.doc_names,
            doc_lengths: self.doc_lengths@,
        }
    }

    /// The persisted form of an index is a well-formed record, and the
    /// index that the record stands for is the index itself: postings,
    /// names and lengths are the same.
    pub proof fn lemma_record_round_trip(&self)
        requires
            self.wf(),
        ensures
            self.record().well_formed(),
            self.record().index_view() == self@,
    {
        let record = self.record();
        self.postings.lemma_wf();
        assert(record.terms() =~= self.postings.terms());
        assert(record.lists() =~= self.postings.lists());
        assert(record.index_view().doc_lengths =~= self@.doc_lengths);
        assert forall|i: int| 0 <= i < record.postings.len() implies ascending(
            (#[trigger] record.postings[i]).1,
        ) && entries_fit(record.postings[i].1, record.doc_lengths) by {
            let list = record.postings[i].1;
            assert(list == self.postings.lists()[i]);
            lemma_posting_map(list);
            assert(self@.postings.contains_key(self.postings.terms()[i]));
            assert forall|j: int| 0 <= j < list.len() implies (#[trigger] list[j]).0
                < record.doc_lengths.len() && 1 <= list[j].1
                <= record.doc_lengths[list[j].0 as int] by {
                assert(self@.postings[self.postings.terms()[i]].contains_key(list[j].0 as nat));
            }
        }
    }

    /// Writes the index to a record.
    pub fn to_record(&self) -> (record: IndexRecord)
        requires
            self.wf(),
        ensures
            record@ == self.record(),
            record@.well_formed(),
            record@.index_view() == self@,
    {
        let mut postings: Vec<(String, Vec<(usize, usize)>)> = Vec::new();
        let n = self.postings.len();
        let mut i: usize = 0;
        while i < n
            invariant
                i <= n == self.postings.terms().len(),
                self.wf(),
                postings@.len() == i,
                forall|k: int|
                    0 <= k < i ==> (#[trigger] postings@[k]).0@ == self.postings.terms()[k]
                        && postings@[k].1@ == self.postings.lists()[k],
            decreases n - i,
        {
            let term = String::from_str(self.postings.term(i));
            let list = copy_list(self.postings.list(i));
            postings.push((term, list));
            i = i + 1;
        }
        let mut doc_names: Vec<String> = Vec::new();
        let mut d: usize = 0;
        while d < self.doc_names.len()
            invariant
                d <= self.doc_names@.len(),
                doc_names@.len() == d,
                forall|k: int| 0 <= k < d ==> (#[trigger] doc_names@[k])@ == self.doc_names@[k]@,
            decreases self.doc_names@.len() - d,
        {
            doc_names.push(self.doc_names[d].clone());
            d = d + 1;
        }
        let doc_lengths = self.doc_lengths.clone();
        let record = IndexRecord { postings, doc_names, doc_lengths };
        proof {
            self.postings.lemma_wf();
            assert(record@.postings =~= self.record().postings);
            assert(record@.doc_names =~= self.record().doc_names);
            assert(record@.doc_lengths =~= self.record().doc_lengths);
            self.lemma_record_round_trip();
        }
        record
    }

    /// Reads an index from a record. The record must be well-formed;
    /// any other is refused, and nothing else is.
    pub fn from_record(record: IndexRecord) -> (res: Result<InvertedIndex, IndexError>)
        ensures
            match res {
                Ok(index) => record@.well_formed() && index.wf() && index@
                    == record@.index_view(),
                Err(error) => !record@.well_formed() && error is Inconsistent,
            },
    {
        let ghost model = record@;
        let mut postings = record.postings;
        let doc_names = record.doc_names;
        let doc_lengths = record.doc_lengths;
        if doc_names.len() != doc_lengths.len() {
            return Err(IndexError::Inconsistent);
        }
        let mut table = PostingTable::new();
        let n = postings.len();
        let mut i: usize = 0;
        proof {
            assert(table.lists() =~= model.lists().take(0));
            assert(table.terms() =~= model.terms().take(0));
        }
        while i < n
            invariant
                i <= n == postings@.len() == model.postings.len(),
                model == record@,
                model.doc_lengths == doc_lengths@,
                table.wf(),
                table.terms() == model.terms().take(i as int),
                table.lists() == model.lists().take(i as int),
                forall|k: int|
                    i <= k < n ==> (#[trigger] postings@[k]).0@ == model.postings[k].0
                        && postings@[k].1@ == model.postings[k].1,
                forall|k: int|
                    0 <= k < i ==> ascending((#[trigger] model.postings[k]).1) && entries_fit(
                        model.postings[k].1,
                        model.doc_lengths,
                    ),
            decreases n - i,
        {
            let mut entry: (String, Vec<(usize, usize)>) = (String::new(), Vec::new());
            core::mem::swap(&mut postings[i], &mut entry);
            let term = entry.0;
            let list = entry.1;
            if table.find(term.as_str()).is_some() {
                proof {
                    table.lemma_wf();
                    let k = model.terms().take(i as int).index_of(term@);
                    assert(model.terms()[k] == model.terms()[i as int]);
                }
                return Err(IndexError::Inconsistent);
            }
            if !check_list(&list, &doc_lengths) {
                proof {
                    assert(model.postings[i as int].1 == list@);
                }
                return Err(IndexError::Inconsistent);
            }
            table.insert(term, list);
            proof {
                assert(model.terms().take(i + 1) =~= model.terms().take(i as int).push(
                    model.terms()[i as int],
                ));
                assert(model.lists().take(i + 1) =~= model.lists().take(i as int).push(
                    model.lists()[i as int],
                ));
            }
            i = i + 1;
        }
        let index = InvertedIndex { postings: table, doc_names, doc_lengths };
        proof {
            assert(model.terms().take(n as int) =~= model.terms());
            assert(model.lists().take(n as int) =~= model.lists());
            table.lemma_wf();
            assert(index@.doc_names =~= model.index_view().doc_names);
            assert(index@.doc_lengths =~= model.index_view().doc_lengths);
            assert forall|t: Seq<char>, d: nat|
                index@.postings.contains_key(t) && #[trigger] index@.postings[t].contains_key(
                    d,
                ) implies d < index@.doc_names.len() && 1 <= index@.postings[t][d]
                <= index@.doc_lengths[d as int] by {
                let k = model.terms().index_of(t);
                let list = model.postings[k].1;
                assert(list == model.lists()[k]);
                lemma_posting_map(list);
                let j = choose|j: int| 0 <= j < list.len() && (#[trigger] list[j]).0 == d;
                assert(list[j].0 < model.doc_lengths.len());
            }
        }
        Ok(index)
    }

    /// Whether two indexes hold the same postings, names and lengths.
    pub fn same_as(&self, other: &InvertedIndex) -> (same: bool)
        requires
            self.wf(),
            other.wf(),
        ensures
            same == (self@ == other@),
    {
        let n = self.doc_names.len();
        if n != other.doc_names.len() {
            return false;
        }
        let mut doc: usize = 0;
        while doc < n
            invariant
                doc <= n == self.doc_names@.len() == other.doc_names@.len(),
                self.wf(),
                other.wf(),
                self@.doc_lengths.len() == n == other@.doc_lengths.len(),
                forall|k: int|
                    0 <= k < doc ==> (#[trigger] self@.doc_names[k]) == other@.doc_names[k],
                forall|k: int|
                    0 <= k < doc ==> (#[trigger] self@.doc_lengths[k]) == other@.doc_lengths[k],
            decreases n - doc,
        {
            if !self.doc_names[doc].as_str().eq(other.doc_names[doc].as_str()) {
                assert(self@.doc_names[doc as int] != other@.doc_names[doc as int]);
                return false;
            }
            if self.doc_lengths[doc] != other.doc_lengths[doc] {
                assert(self@.doc_lengths[doc as int] != other@.doc_lengths[doc as int]);
                return false;
            }
            doc = doc + 1;
        }
        let same = self.postings.included_in(&other.postings) && other.postings.included_in(
            &self.postings,
        );
        proof {
            if same {
                assert(self@.doc_names =~= other@.doc_names);
                assert(self@.doc_lengths =~= other@.doc_lengths);
                assert(self@.postings =~= other@.postings);
            }
        }
        same
    }

    /// The index as JSON text: an array of the postings (an object from
    /// term to an object from document number to count), the document
    /// names and the document lengths.
    ///
    /// Before the text is handed out it is read back and held against the
    /// index, so that a text that [`InvertedIndex::load`] would not restore
    /// the index from is never handed out.
    pub fn save(&self) -> (res: Result<String, IndexError>)
        requires
            self.wf(),
        ensures
            match index_json(self.record()) {
                Some(text) => if restores(text, self@) {
                    res matches Ok(written) && written@ == text
                } else {
                    res matches Err(IndexError::Unreadable)
                },
                None => res matches Err(IndexError::Unwritable(_)),
            },
    {
        let record = self.to_record();
        match encode_index(&record) {
            Ok(text) => {
                let read = match decode_index(text.as_str()) {
                    Ok(read) => read,
                    Err(_) => {
                        return Err(IndexError::Unreadable);
                    },
                };
                match InvertedIndex::from_record(read) {
                    Ok(back) => {
                        if self.same_as(&back) {
                            Ok(text)
                        } else {
                            Err(IndexError::Unreadable)
                        }
                    },
                    Err(_) => Err(IndexError::Unreadable),
                }
            },
            Err(error) => Err(IndexError::Unwritable(error_text(&error))),
        }
    }

    /// Replaces the index by the one that a JSON text holds. A text that
    /// cannot be decoded, or that holds no well-formed record, is refused
    /// and leaves the index as it was.
    pub fn load(&mut self, text: &str) -> (res: Result<(), IndexError>)
        ensures
            match index_of_json(text@) {
                Some(record) => if record.well_formed() {
                    res is Ok && final(self).wf() && final(self)@ == record.index_view()
                } else {
                    res matches Err(IndexError::Inconsistent) && *final(self) == *old(self)
                },
                None => res matches Err(IndexError::Malformed(_)) && *final(self) == *old(self),
            },
            forall|index: IndexView|
                restores(text@, index) ==> res is Ok && final(self).wf() && final(self)@ == index,
    {
        match decode_index(text) {
            Ok(record) => match InvertedIndex::from_record(record) {
                Ok(index) => {
                    *self = index;
                    Ok(())
                },
                Err(error) => Err(error),
            },
            Err(error) => Err(IndexError::Malformed(error_text(&error))),
        }
    }

    /// The index that [`InvertedIndex::load`] makes of what
    /// [`InvertedIndex::save`] writes: it holds the same postings, names
    /// and lengths. There is none only where the index cannot be saved.
    pub fn reloaded(&self) -> (res: Result<InvertedIndex, IndexError>)
        requires
            self.wf(),
        ensures
            match res {
                Ok(copy) => copy.wf() && copy@ == self@,
                Err(_) => !(index_json(self.record()) matches Some(text) && restores(
                    text,
                    self@,
                )),
            },
    {
        let text = match self.save() {
            Ok(text) => text,
            Err(error) => {
                return Err(error);
            },
        };
        let mut copy = InvertedIndex::new();
        match copy.load(text.as_str()) {
            Ok(()) => Ok(copy),
            Err(error) => Err(error),
        }
    }
}

} // verus!
