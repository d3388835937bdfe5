//! The persisted form of an index: a plain record, and its JSON text.
//!
//! A record holds what is written, in the order in which it is written. The
//! JSON itself is the work of `serde_json`: this module hands records to it
//! and takes records back. Of the text the library knows only that it is
//! the one that `serde_json` makes of a record, and of a record read only
//! that it is the one that `serde_json` makes of the text; whether a text
//! reads back as the index it was written from is therefore tested when it
//! is written, not taken on trust.

use std::collections::BTreeMap;
use vstd::prelude::*;
use crate::index_view::IndexView;
use crate::postings::{ascending, table_map};
use crate::term_counts::{paired, sum_of};
use crate::vocabulary::{distinct, keyed};

verus! {

/// The error type of `serde_json`.
#[verifier::external_type_specification]
#[verifier::external_body]
pub struct ExJsonError(serde_json::Error);

/// Why an index could not be saved or loaded.
#[derive(Debug)]
pub enum IndexError {
    /// The text is not JSON, or not JSON of the persisted form. The string
    /// is the decoder's message.
    Malformed(String),
    /// The text was decoded, but what it holds is no index: an invariant of
    /// the record is broken.
    Inconsistent,
    /// The record could not be written as JSON. The string is the encoder's
    /// message.
    Unwritable(String),
    /// The record was written, but the text does not read back as the
    /// index that was to be saved.
    Unreadable,
}

/// The persisted form of an inverted index: the postings as pairs of a term
/// and its posting list, the document names and the document lengths, both
/// by document number.
pub struct IndexRecord {
    pub postings: Vec<(String, Vec<(usize, usize)>)>,
    pub doc_names: Vec<String>,
    pub doc_lengths: Vec<usize>,
}

/// An [`IndexRecord`] as a mathematical value.
pub struct IndexRecordView {
    pub postings: Seq<(Seq<char>, Seq<(usize, usize)>)>,
    pub doc_names: Seq<Seq<char>>,
    pub doc_lengths: Seq<usize>,
}

impl View for IndexRecord {
    type V = IndexRecordView;

    open spec fn view(&self) -> IndexRecordView {
        IndexRecordView {
            postings: Seq::new(
                self.postings@.len(),
                |i: int| (self.postings@[i].0@, self.postings@[i].1@),
            ),
            doc_names: Seq::new(self.doc_names@.len(), |i: int| self.doc_names@[i]@),
            doc_lengths: self.doc_lengths@,
        }
    }
}

/// Every entry of a posting list names a document that `doc_lengths` knows,
/// with a count that is not 0 and not larger than the document.
pub open spec fn entries_fit(list: Seq<(usize, usize)>, doc_lengths: Seq<usize>) -> bool {
    forall|j: int|
        0 <= j < list.len() ==> (#[trigger] list[j]).0 < doc_lengths.len() && 1 <= list[j].1
            <= doc_lengths[list[j].0 as int]
}

impl IndexRecordView {
    /// The terms of the record, in its order.
    pub open spec fn terms(self) -> Seq<Seq<char>> {
        Seq::new(self.postings.len(), |i: int| self.postings[i].0)
    }

    /// The posting lists of the record, in its order.
    pub open spec fn lists(self) -> Seq<Seq<(usize, usize)>> {
        Seq::new(self.postings.len(), |i: int| self.postings[i].1)
    }

    /// The record is the persisted form of an index: no term stands twice,
    /// every posting list is ascending and fits the documents, and there
    /// are as many names as lengths.
    pub open spec fn well_formed(self) -> bool {
        &&& self.doc_names.len() == self.doc_lengths.len()
        &&& distinct(self.terms())
        &&& forall|i: int|
            0 <= i < self.postings.len() ==> ascending((#[trigger] self.postings[i]).1)
                && entries_fit(self.postings[i].1, self.doc_lengths)
    }

    /// The index that the record is the persisted form of.
    pub open spec fn index_view(self) -> IndexView {
        IndexView {
            postings: table_map(self.terms(), self.lists()),
            doc_names: self.doc_names,
            doc_lengths: Seq::new(self.doc_lengths.len(), |i: int| self.doc_lengths[i] as nat),
        }
    }
}

/// The persisted form of a forward index: the documents as pairs of a name
/// and the document's terms, each term with its count.
pub struct ForwardRecord {
    pub documents: Vec<(String, Vec<(String, usize)>)>,
}

/// A [`ForwardRecord`] as a mathematical value.
pub struct ForwardRecordView {
    pub documents: Seq<(Seq<char>, Seq<(Seq<char>, usize)>)>,
}

/// The terms and counts of one persisted document as plain sequences.
pub open spec fn counts_view(counts: Seq<(String, usize)>) -> Seq<(Seq<char>, usize)> {
    Seq::new(counts.len(), |j: int| (counts[j].0@, counts[j].1))
}

impl View for ForwardRecord {
    type V = ForwardRecordView;

    open spec fn view(&self) -> ForwardRecordView {
        ForwardRecordView {
            documents: Seq::new(
                self.documents@.len(),
                |i: int| (self.documents@[i].0@, counts_view(self.documents@[i].1@)),
            ),
        }
    }
}

/// The terms of one persisted document.
pub open spec fn pair_terms(pairs: Seq<(Seq<char>, usize)>) -> Seq<Seq<char>> {
    Seq::new(pairs.len(), |j: int| pairs[j].0)
}

/// The counts of one persisted document.
pub open spec fn pair_counts(pairs: Seq<(Seq<char>, usize)>) -> Seq<usize> {
    Seq::new(pairs.len(), |j: int| pairs[j].1)
}

/// The terms and counts of a persisted document are those of a document:
/// no term stands twice, no count is 0, and the counts together fit a
/// `usize`.
pub open spec fn pairs_well_formed(pairs: Seq<(Seq<char>, usize)>) -> bool {
    &&& distinct(pair_terms(pairs))
    &&& forall|j: int| 0 <= j < pairs.len() ==> (#[trigger] pairs[j]).1 >= 1
    &&& sum_of(pair_counts(pairs)) <= usize::MAX
}

impl ForwardRecordView {
    /// The document names of the record, in its order.
    pub open spec fn names(self) -> Seq<Seq<char>> {
        Seq::new(self.documents.len(), |i: int| self.documents[i].0)
    }

    /// The term counts of the record's documents as maps, in its order.
    pub open spec fn maps(self) -> Seq<Map<Seq<char>, nat>> {
        Seq::new(
            self.documents.len(),
            |i: int| paired(pair_terms(self.documents[i].1), pair_counts(self.documents[i].1)),
        )
    }

    /// The record is the persisted form of a forward index: no name stands
    /// twice, and every document is well-formed.
    pub open spec fn well_formed(self) -> bool {
        &&& distinct(self.names())
        &&& forall|i: int|
            0 <= i < self.documents.len() ==> pairs_well_formed((#[trigger] self.documents[i]).1)
    }

    /// What the forward index holds that the record is the persisted form
    /// of.
    pub open spec fn index_view(self) -> Map<Seq<char>, Map<Seq<char>, nat>> {
        keyed(self.names(), self.maps())
    }
}

/// The JSON text that `serde_json::to_string` makes of an index record,
/// `None` where it fails.
pub uninterp spec fn index_json(record: IndexRecordView) -> Option<Seq<char>>;

/// The index record that `serde_json::from_str` reads from a text, `None`
/// where it fails.
pub uninterp spec fn index_of_json(text: Seq<char>) -> Option<IndexRecordView>;

/// Whether the JSON text `text` reads back as the index `index`: it holds a
/// well-formed record, and the record is the persisted form of the index.
pub open spec fn restores(text: Seq<char>, index: IndexView) -> bool {
    match index_of_json(text) {
        Some(record) => record.well_formed() && record.index_view() == index,
        None => false,
    }
}

/// The JSON text that `serde_json::to_string` makes of a forward record,
/// `None` where it fails.
pub uninterp spec fn forward_json(record: ForwardRecordView) -> Option<Seq<char>>;

/// The forward record that `serde_json::from_str` reads from a text, `None`
/// where it fails.
pub uninterp spec fn forward_of_json(text: Seq<char>) -> Option<ForwardRecordView>;

/// `serde_json::to_string` on the triple of postings, names and lengths,
/// the postings as a map from term to a map from document number to count.
/// The record is well-formed, so every entry of it becomes one entry of a
/// map; the maps are ordered, so the text depends on the record alone. The
/// contract gives that text a name and claims nothing else of it.
#[verifier::external_body]
pub(crate) fn encode_index(record: &IndexRecord) -> (res: Result<String, serde_json::Error>)
    requires
        record@.well_formed(),
    ensures
        match res {
            Ok(text) => index_json(record@) == Some(text@),
            Err(_) => index_json(record@) is None,
        },
{
    let postings: BTreeMap<&str, BTreeMap<usize, usize>> = record.postings.iter().map(
        |entry| (entry.0.as_str(), entry.1.iter().copied().collect()),
    ).collect();
    serde_json::to_string(&(postings, &record.doc_names, &record.doc_lengths))
}

/// `serde_json::from_str` for the triple that [`encode_index`] writes. The
/// record lists terms and documents in the order of the maps that were
/// read; the contract gives the record a name and claims nothing else of
/// it.
#[verifier::external_body]
pub(crate) fn decode_index(text: &str) -> (res: Result<IndexRecord, serde_json::Error>)
    ensures
        match res {
            Ok(record) => index_of_json(text@) == Some(record@),
            Err(_) => index_of_json(text@) is None,
        },
{
    let parsed: (BTreeMap<String, BTreeMap<usize, usize>>, Vec<String>, Vec<usize>) =
        serde_json::from_str(text)?;
    let postings = parsed.0.into_iter().map(|entry| (entry.0, entry.1.into_iter().collect()));
    Ok(IndexRecord { postings: postings.collect(), doc_names: parsed.1, doc_lengths: parsed.2 })
}

/// `serde_json::to_string` on a map from document name to a map from term
/// to count. The record is well-formed, so every entry of it becomes one
/// entry of a map; the maps are ordered, so the text depends on the record
/// alone. The contract gives that text a name and claims nothing else of
/// it.
#[verifier::external_body]
pub(crate) fn encode_forward(record: &ForwardRecord) -> (res: Result<String, serde_json::Error>)
    requires
        record@.well_formed(),
    ensures
        match res {
            Ok(text) => forward_json(record@) == Some(text@),
            Err(_) => forward_json(record@) is None,
        },
{
    let documents: BTreeMap<&str, BTreeMap<&str, usize>> = record.documents.iter().map(
        |doc| (doc.0.as_str(), doc.1.iter().map(|entry| (entry.0.as_str(), entry.1)).collect()),
    ).collect();
    serde_json::to_string(&documents)
}

/// `serde_json::from_str` for the map that [`encode_forward`] writes. The
/// record lists documents and terms in the order of the maps that were
/// read; the contract gives the record a name and claims nothing else of
/// it.
#[verifier::external_body]
pub(crate) fn decode_forward(text: &str) -> (res: Result<ForwardRecord, serde_json::Error>)
    ensures
        match res {
            Ok(record) => forward_of_json(text@) == Some(record@),
            Err(_) => forward_of_json(text@) is None,
        },
{
    let parsed: BTreeMap<String, BTreeMap<String, usize>> = serde_json::from_str(text)?;
    let documents = parsed.into_iter().map(|doc| (doc.0, doc.1.into_iter().collect()));
    Ok(ForwardRecord { documents: documents.collect() })
}

/// The message of a `serde_json` error, as its `Display` writes it. Nothing
/// is claimed of the message.
#[verifier::external_body]
pub(crate) fn error_text(error: &serde_json::Error) -> String {
    error.to_string()
}

} // verus!
