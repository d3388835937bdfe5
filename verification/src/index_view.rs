//! The inverted index as a mathematical value, and what its operations
//! compute.

use vstd::prelude::*;
use crate::score::{idf_of, sum_is_positive, Tf, TfIdf};
use crate::term_counts::count_in;
use crate::text::{lowercase_text, tokens};

verus! {

/// What an inverted index holds.
pub struct IndexView {
    /// For every indexed term, the documents that contain it, each with the
    /// number of occurrences.
    pub postings: Map<Seq<char>, Map<nat, nat>>,
    /// The name of every document, by document number.
    pub doc_names: Seq<Seq<char>>,
    /// The number of tokens of every document, by document number.
    pub doc_lengths: Seq<nat>,
}

impl IndexView {
    /// The index without documents and terms.
    pub open spec fn empty() -> IndexView {
        IndexView { postings: Map::empty(), doc_names: Seq::empty(), doc_lengths: Seq::empty() }
    }

    /// Names and lengths are known of the same documents, every posting
    /// names one of them, and no count is 0 or larger than the document.
    pub open spec fn valid(self) -> bool {
        &&& self.doc_names.len() == self.doc_lengths.len()
        &&& forall|term: Seq<char>| #[trigger]
            self.postings.contains_key(term) ==> self.postings[term].dom().finite()
        &&& forall|term: Seq<char>, doc: nat|
            self.postings.contains_key(term) && #[trigger] self.postings[term].contains_key(doc)
                ==> doc < self.doc_names.len() && 1 <= self.postings[term][doc]
                <= self.doc_lengths[doc as int]
    }

    /// How often `term` occurs in the document `doc`; 0 where the postings
    /// do not say otherwise.
    pub open spec fn term_count(self, term: Seq<char>, doc: nat) -> nat {
        if self.postings.contains_key(term) && self.postings[term].contains_key(doc) {
            self.postings[term][doc]
        } else {
            0
        }
    }

    /// How many documents contain `term`.
    pub open spec fn doc_frequency(self, term: Seq<char>) -> nat {
        if self.postings.contains_key(term) {
            self.postings[term].dom().len()
        } else {
            0
        }
    }

    /// The term frequency of `term` in the document `doc`.
    pub open spec fn tf(self, term: Seq<char>, doc: nat) -> Tf {
        Tf { count: self.term_count(term, doc) as usize, total: self.doc_lengths[doc as int] as usize }
    }

    /// The weight of `term` in the document `doc`: its term frequency there
    /// times its inverse document frequency.
    pub open spec fn weight(self, term: Seq<char>, doc: nat) -> TfIdf {
        TfIdf {
            tf: self.tf(term, doc),
            idf: idf_of(self.doc_names.len() as usize, self.doc_frequency(term) as usize),
        }
    }

    /// The score of the document `doc` for a query: the weights, in the
    /// order of the query, of the query terms that the document contains.
    /// The score is their sum.
    pub open spec fn doc_score(self, queries: Seq<Seq<char>>, doc: nat) -> Seq<TfIdf>
        decreases queries.len(),
    {
        if queries.len() == 0 {
            Seq::empty()
        } else if self.term_count(queries.last(), doc) > 0 {
            self.doc_score(queries.drop_last(), doc).push(self.weight(queries.last(), doc))
        } else {
            self.doc_score(queries.drop_last(), doc)
        }
    }

    /// The documents among the first `n` whose score for the query is not
    /// 0, by document number, each with its name and score.
    pub open spec fn ranking_upto(self, queries: Seq<Seq<char>>, n: nat) -> Seq<
        (Seq<char>, Seq<TfIdf>),
    >
        decreases n,
    {
        if n == 0 {
            Seq::empty()
        } else {
            let doc = (n - 1) as nat;
            let rest = self.ranking_upto(queries, doc);
            if sum_is_positive(self.doc_score(queries, doc)) {
                rest.push((self.doc_names[doc as int], self.doc_score(queries, doc)))
            } else {
                rest
            }
        }
    }

    /// All documents whose score for the query is not 0, by document
    /// number, each with its name and score.
    pub open spec fn ranking(self, queries: Seq<Seq<char>>) -> Seq<(Seq<char>, Seq<TfIdf>)> {
        self.ranking_upto(queries, self.doc_names.len())
    }

    /// The index with one more document, which has the next free number,
    /// the name `name` and the tokens `tokens`: every term among the tokens
    /// gets a posting for the document with the number of its occurrences.
    pub open spec fn with_document(self, name: Seq<char>, tokens: Seq<Seq<char>>) -> IndexView {
        let doc = self.doc_names.len();
        IndexView {
            postings: Map::new(
                |term: Seq<char>| self.postings.contains_key(term) || count_in(tokens, term) > 0,
                |term: Seq<char>|
                    if count_in(tokens, term) > 0 {
                        (if self.postings.contains_key(term) {
                            self.postings[term]
                        } else {
                            Map::empty()
                        }).insert(doc, count_in(tokens, term))
                    } else {
                        self.postings[term]
                    },
            ),
            doc_names: self.doc_names.push(name),
            doc_lengths: self.doc_lengths.push(tokens.len()),
        }
    }

    /// The index of a corpus: the documents, each a name and a text, are
    /// added in their order to the empty index; a text is lowercased and
    /// then cut into tokens without apostrophes.
    pub open spec fn built(documents: Seq<(Seq<char>, Seq<char>)>) -> IndexView
        decreases documents.len(),
    {
        if documents.len() == 0 {
            IndexView::empty()
        } else {
            IndexView::built(documents.drop_last()).with_document(
                documents.last().0,
                tokens(lowercase_text(documents.last().1), false),
            )
        }
    }

    /// The index without the terms that `cutoff` documents or more contain.
    pub open spec fn pruned(self, cutoff: nat) -> IndexView {
        IndexView {
            postings: self.postings.restrict(
                Set::new(
                    |term: Seq<char>|
                        self.postings.contains_key(term) && self.postings[term].dom().len()
                            < cutoff,
                ),
            ),
            doc_names: self.doc_names,
            doc_lengths: self.doc_lengths,
        }
    }
}

} // verus!
