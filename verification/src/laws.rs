//! What holds of every index and every query.
//!
//! The functions of this module are theorems about the values that the
//! index operations are specified with; each is proved from the
//! definitions and from nothing else.

use vstd::prelude::*;
use vstd::set_lib::lemma_len_subset;
use crate::index_view::IndexView;
use crate::score::{idf_of, Tf, TfIdf};
use crate::term_counts::{count_in, lemma_count_in};
use crate::text::{
    clean, is_clean, is_term_char, lowercase_text, tokens, tokens_from, word_end, word_start,
};

verus! {

/// The document numbers below `n`.
pub open spec fn docs_below(n: nat) -> Set<nat> {
    Set::new(|doc: nat| doc < n)
}

/// There are `n` document numbers below `n`.
pub proof fn lemma_docs_below(n: nat)
    ensures
        docs_below(n).finite(),
        docs_below(n).len() == n,
    decreases n,
{
    if n == 0 {
        assert(docs_below(n) =~= Set::<nat>::empty());
    } else {
        lemma_docs_below((n - 1) as nat);
        assert(docs_below(n) =~= docs_below((n - 1) as nat).insert((n - 1) as nat));
    }
}

/// No term is contained in more documents than the index holds.
pub proof fn lemma_doc_frequency_bound(index: IndexView, term: Seq<char>)
    requires
        index.valid(),
    ensures
        index.doc_frequency(term) <= index.doc_names.len(),
{
    if index.postings.contains_key(term) {
        let docs = index.postings[term].dom();
        lemma_docs_below(index.doc_names.len());
        assert(docs.subset_of(docs_below(index.doc_names.len()))) by {
            assert forall|doc: nat| docs.contains(doc) implies docs_below(
                index.doc_names.len(),
            ).contains(doc) by {
                assert(index.postings[term].contains_key(doc));
            }
        }
        lemma_len_subset(docs, docs_below(index.doc_names.len()));
    }
}

/// The inverse document frequency of a term that no document contains is 0,
/// and so is every product with it.
pub proof fn law_absent_term_has_zero_idf(docs: usize, tf: Tf)
    ensures
        idf_of(docs, 0).is_zero(),
        !idf_of(docs, 0).is_positive(),
        (TfIdf { tf, idf: idf_of(docs, 0) }).is_zero(),
        !(TfIdf { tf, idf: idf_of(docs, 0) }).is_positive(),
{
}

/// For a fixed number of documents, the inverse document frequency does not
/// grow when more documents contain the term, as long as at least one does.
pub proof fn law_idf_does_not_grow(docs: usize, fewer: usize, more: usize)
    requires
        1 <= fewer <= more,
    ensures
        idf_of(docs, more).le(idf_of(docs, fewer)),
{
    assert((docs as nat) * (fewer as nat) <= (docs as nat) * (more as nat)) by (nonlinear_arith)
        requires
            fewer <= more,
    ;
}

/// A term that the postings do not name for a document has the term
/// frequency 0 there.
pub proof fn law_absent_term_has_zero_tf(index: IndexView, term: Seq<char>, doc: nat)
    requires
        !(index.postings.contains_key(term) && index.postings[term].contains_key(doc)),
    ensures
        index.term_count(term, doc) == 0,
        index.tf(term, doc).is_zero(),
        index.weight(term, doc).is_zero(),
{
}

/// After a document was added, the index knows of every term how often it
/// occurs among the document's tokens, and 0 for a term that does not occur
/// there; what it knows of the earlier documents is unchanged.
pub proof fn law_added_document_is_counted(
    index: IndexView,
    name: Seq<char>,
    tokens: Seq<Seq<char>>,
    term: Seq<char>,
    doc: nat,
)
    requires
        index.valid(),
    ensures
        index.with_document(name, tokens).valid(),
        index.with_document(name, tokens).term_count(term, index.doc_names.len()) == count_in(
            tokens,
            term,
        ),
        !tokens.contains(term) ==> index.with_document(name, tokens).tf(
            term,
            index.doc_names.len(),
        ).is_zero(),
        doc < index.doc_names.len() ==> index.with_document(name, tokens).term_count(term, doc)
            == index.term_count(term, doc),
{
    let after = index.with_document(name, tokens);
    let new_doc = index.doc_names.len();
    lemma_count_in(tokens, term);
    if index.postings.contains_key(term) && index.postings[term].contains_key(new_doc) {
        assert(new_doc < index.doc_names.len());
    }
    assert forall|t: Seq<char>| #[trigger] after.postings.contains_key(t) implies after.postings[t]
        .dom().finite() by {
        if index.postings.contains_key(t) {
            assert(index.postings[t].dom().finite());
        }
    }
    assert forall|t: Seq<char>, d: nat|
        after.postings.contains_key(t) && #[trigger] after.postings[t].contains_key(d) implies d
        < after.doc_names.len() && 1 <= after.postings[t][d] <= after.doc_lengths[d as int] by {
        lemma_count_in(tokens, t);
        if index.postings.contains_key(t) && index.postings[t].contains_key(d) {
            assert(d < new_doc);
        }
    }
}

/// A term that no document contains has the inverse document frequency 0,
/// has the weight 0 in every document, and adds nothing to the score of any
/// document.
pub proof fn law_unknown_term_scores_nothing(
    index: IndexView,
    queries: Seq<Seq<char>>,
    term: Seq<char>,
    doc: nat,
)
    requires
        !index.postings.contains_key(term),
    ensures
        index.doc_frequency(term) == 0,
        idf_of(index.doc_names.len() as usize, index.doc_frequency(term) as usize).is_zero(),
        index.weight(term, doc).is_zero(),
        index.doc_score(seq![term], doc) == Seq::<TfIdf>::empty(),
        index.doc_score(queries.push(term), doc) == index.doc_score(queries, doc),
{
    assert(queries.push(term).drop_last() =~= queries);
    assert(seq![term].drop_last() =~= Seq::<Seq<char>>::empty());
    assert(index.doc_score(seq![term].drop_last(), doc) =~= Seq::<TfIdf>::empty());
}

/// The score of a document for a query of several terms lists the weights
/// of its scores for the parts of the query, one part after the other: as a
/// sum, the score for the whole is the sum of the scores for the parts.
pub proof fn law_scores_add_up(
    index: IndexView,
    first: Seq<Seq<char>>,
    second: Seq<Seq<char>>,
    doc: nat,
)
    ensures
        index.doc_score(first + second, doc) == index.doc_score(first, doc) + index.doc_score(
            second,
            doc,
        ),
    decreases second.len(),
{
    if second.len() == 0 {
        assert(first + second =~= first);
        assert(index.doc_score(first, doc) + index.doc_score(second, doc) =~= index.doc_score(
            first,
            doc,
        ));
    } else {
        law_scores_add_up(index, first, second.drop_last(), doc);
        assert((first + second).drop_last() =~= first + second.drop_last());
        assert((first + second).last() == second.last());
        assert(index.doc_score(first + second, doc) =~= index.doc_score(first, doc)
            + index.doc_score(second, doc));
    }
}

/// The score of a document for a query is the score for the query without
/// its last term followed by the score for that term alone: a query of
/// several terms scores as its terms do one by one.
pub proof fn law_score_term_by_term(
    index: IndexView,
    queries: Seq<Seq<char>>,
    term: Seq<char>,
    doc: nat,
)
    ensures
        index.doc_score(queries.push(term), doc) == index.doc_score(queries, doc)
            + index.doc_score(seq![term], doc),
{
    law_scores_add_up(index, queries, seq![term], doc);
    assert(queries + seq![term] =~= queries.push(term));
}

/// Pruning with a cutoff above the number of documents removes no term.
pub proof fn law_prune_above_doc_count_keeps_all(index: IndexView, cutoff: nat)
    requires
        index.valid(),
        cutoff > index.doc_names.len(),
    ensures
        index.pruned(cutoff) == index,
{
    assert forall|term: Seq<char>| index.postings.contains_key(term) implies index.pruned(
        cutoff,
    ).postings.contains_key(term) by {
        lemma_doc_frequency_bound(index, term);
    }
    assert(index.pruned(cutoff).postings =~= index.postings);
}

/// Pruning keeps a term exactly if fewer documents than the cutoff contain
/// it, and leaves the postings of a kept term as they were.
pub proof fn law_prune_keeps_rare_terms(index: IndexView, cutoff: nat, term: Seq<char>)
    ensures
        index.pruned(cutoff).postings.contains_key(term) <==> (index.postings.contains_key(term)
            && index.doc_frequency(term) < cutoff),
        index.pruned(cutoff).postings.contains_key(term) ==> index.pruned(cutoff).postings[term]
            == index.postings[term],
        index.pruned(cutoff).doc_names == index.doc_names,
        index.pruned(cutoff).doc_lengths == index.doc_lengths,
{
}

/// Pruning with the cutoff 0 removes every term.
pub proof fn law_prune_at_zero_removes_all(index: IndexView)
    ensures
        index.pruned(0).postings == Map::<Seq<char>, Map<nat, nat>>::empty(),
{
    assert(index.pruned(0).postings =~= Map::<Seq<char>, Map<nat, nat>>::empty());
}

/// Every term that a tokenizer yields is made of the characters that it
/// keeps, and of nothing else.
pub proof fn law_tokens_are_clean(text: Seq<char>, from: int, permissive: bool, i: int)
    requires
        0 <= i < tokens_from(text, from, permissive).len(),
    ensures
        is_clean(tokens_from(text, from, permissive)[i], permissive),
    decreases text.len() - from, i,
{
    let start = word_start(text, from);
    let end = word_end(text, start);
    if i == 0 {
        let span = text.subrange(start, end);
        let token = clean(span, permissive);
        assert forall|j: int| 0 <= j < token.len() implies is_term_char(
            #[trigger] token[j],
            permissive,
        ) by {
            span.lemma_filter_pred(|c: char| is_term_char(c, permissive), j);
        }
    } else {
        law_tokens_are_clean(text, end, permissive, i - 1);
    }
}

/// The index of a corpus is valid, names the documents of the corpus in
/// their order, and knows of each its length in tokens.
pub proof fn law_built_index_is_valid(documents: Seq<(Seq<char>, Seq<char>)>)
    ensures
        IndexView::built(documents).valid(),
        IndexView::built(documents).doc_names.len() == documents.len(),
        IndexView::built(documents).doc_lengths.len() == documents.len(),
        forall|i: int|
            0 <= i < documents.len() ==> IndexView::built(documents).doc_names[i]
                == (#[trigger] documents[i]).0 && IndexView::built(documents).doc_lengths[i]
                == tokens(lowercase_text(documents[i].1), false).len(),
    decreases documents.len(),
{
    if documents.len() > 0 {
        let before = documents.drop_last();
        let last = documents.last();
        law_built_index_is_valid(before);
        law_added_document_is_counted(
            IndexView::built(before),
            last.0,
            tokens(lowercase_text(last.1), false),
            Seq::empty(),
            0,
        );
        assert forall|i: int| 0 <= i < documents.len() implies IndexView::built(
            documents,
        ).doc_names[i] == (#[trigger] documents[i]).0 && IndexView::built(documents).doc_lengths[i]
            == tokens(lowercase_text(documents[i].1), false).len() by {
            if i < before.len() {
                assert(before[i] == documents[i]);
            }
        }
    }
}

/// Pruning leaves a valid index valid.
pub proof fn law_pruned_index_is_valid(index: IndexView, cutoff: nat)
    requires
        index.valid(),
    ensures
        index.pruned(cutoff).valid(),
{
    let pruned = index.pruned(cutoff);
    assert forall|term: Seq<char>, doc: nat|
        pruned.postings.contains_key(term) && #[trigger] pruned.postings[term].contains_key(
            doc,
        ) implies doc < pruned.doc_names.len() && 1 <= pruned.postings[term][doc]
        <= pruned.doc_lengths[doc as int] by {
        assert(index.postings[term].contains_key(doc));
    }
}

/// A query finds no more documents among the first `n` than `n`.
pub proof fn lemma_ranking_upto_is_bounded(index: IndexView, queries: Seq<Seq<char>>, n: nat)
    ensures
        index.ranking_upto(queries, n).len() <= n,
    decreases n,
{
    if n > 0 {
        lemma_ranking_upto_is_bounded(index, queries, (n - 1) as nat);
    }
}

/// A query finds no more documents than the index holds.
pub proof fn law_ranking_is_bounded(index: IndexView, queries: Seq<Seq<char>>)
    ensures
        index.ranking(queries).len() <= index.doc_names.len(),
{
    lemma_ranking_upto_is_bounded(index, queries, index.doc_names.len());
}

/// The tokens of a document of a corpus, as the index reads them.
pub open spec fn document_tokens(documents: Seq<(Seq<char>, Seq<char>)>, doc: int) -> Seq<
    Seq<char>,
> {
    tokens(lowercase_text(documents[doc].1), false)
}

/// What the index of a corpus knows of a document depends on that document
/// alone: it counts every term as often as the term occurs among the
/// document's tokens.
pub proof fn law_built_document_is_counted(
    documents: Seq<(Seq<char>, Seq<char>)>,
    doc: int,
    term: Seq<char>,
)
    requires
        0 <= doc < documents.len(),
    ensures
        IndexView::built(documents).term_count(term, doc as nat) == count_in(
            document_tokens(documents, doc),
            term,
        ),
    decreases documents.len(),
{
    let before = documents.drop_last();
    let last = documents.last();
    law_built_index_is_valid(before);
    law_added_document_is_counted(
        IndexView::built(before),
        last.0,
        tokens(lowercase_text(last.1), false),
        term,
        doc as nat,
    );
    if doc < before.len() {
        law_built_document_is_counted(before, doc, term);
        assert(before[doc] == documents[doc]);
    }
}

/// The index of a corpus holds a term exactly if the term occurs in one of
/// the documents.
pub proof fn law_built_terms(documents: Seq<(Seq<char>, Seq<char>)>, term: Seq<char>)
    ensures
        IndexView::built(documents).postings.contains_key(term) <==> exists|doc: int|
            0 <= doc < documents.len() && count_in(#[trigger] document_tokens(documents, doc), term)
                > 0,
    decreases documents.len(),
{
    if documents.len() > 0 {
        let before = documents.drop_last();
        let last = documents.len() - 1;
        law_built_terms(before, term);
        assert(document_tokens(documents, last) == tokens(
            lowercase_text(documents.last().1),
            false,
        ));
        if exists|doc: int|
            0 <= doc < before.len() && count_in(#[trigger] document_tokens(before, doc), term) > 0 {
            let doc = choose|doc: int|
                0 <= doc < before.len() && count_in(#[trigger] document_tokens(before, doc), term)
                    > 0;
            assert(before[doc] == documents[doc]);
            assert(count_in(document_tokens(documents, doc), term) > 0);
        }
        if exists|doc: int|
            0 <= doc < documents.len() && count_in(
                #[trigger] document_tokens(documents, doc),
                term,
            ) > 0 {
            let doc = choose|doc: int|
                0 <= doc < documents.len() && count_in(
                    #[trigger] document_tokens(documents, doc),
                    term,
                ) > 0;
            if doc < before.len() {
                assert(before[doc] == documents[doc]);
                assert(count_in(document_tokens(before, doc), term) > 0);
            }
        }
    }
}

/// Two corpora that hold the same documents, in whatever order, give the
/// same index but for the numbers of the documents: where `to` leads from
/// the place of a document in the first corpus to its place in the second,
/// and `back` the other way, the two indexes hold the same terms, and a
/// document has in both the same name, the same length and the same count
/// of every term.
pub proof fn law_build_order(
    first: Seq<(Seq<char>, Seq<char>)>,
    second: Seq<(Seq<char>, Seq<char>)>,
    to: spec_fn(int) -> int,
    back: spec_fn(int) -> int,
)
    requires
        first.len() == second.len(),
        forall|doc: int|
            0 <= doc < first.len() ==> 0 <= #[trigger] to(doc) < second.len() && second[to(doc)]
                == first[doc],
        forall|doc: int|
            0 <= doc < second.len() ==> 0 <= #[trigger] back(doc) < first.len() && first[back(doc)]
                == second[doc],
    ensures
        forall|term: Seq<char>|
            IndexView::built(first).postings.contains_key(term) <==> #[trigger] IndexView::built(
                second,
            ).postings.contains_key(term),
        forall|doc: int|
            0 <= doc < first.len() ==> IndexView::built(second).doc_names[#[trigger] to(doc)]
                == IndexView::built(first).doc_names[doc] && IndexView::built(
                second,
            ).doc_lengths[to(doc)] == IndexView::built(first).doc_lengths[doc],
        forall|term: Seq<char>, doc: int|
            0 <= doc < first.len() ==> #[trigger] IndexView::built(second).term_count(
                term,
                to(doc) as nat,
            ) == IndexView::built(first).term_count(term, doc as nat),
{
    law_built_index_is_valid(first);
    law_built_index_is_valid(second);
    assert forall|term: Seq<char>|
        IndexView::built(first).postings.contains_key(term) <==> #[trigger] IndexView::built(
            second,
        ).postings.contains_key(term) by {
        law_built_terms(first, term);
        law_built_terms(second, term);
        if IndexView::built(first).postings.contains_key(term) {
            let doc = choose|doc: int|
                0 <= doc < first.len() && count_in(#[trigger] document_tokens(first, doc), term) > 0;
            assert(second[to(doc)] == first[doc]);
            assert(count_in(document_tokens(second, to(doc)), term) > 0);
        }
        if IndexView::built(second).postings.contains_key(term) {
            let doc = choose|doc: int|
                0 <= doc < second.len() && count_in(#[trigger] document_tokens(second, doc), term)
                    > 0;
            assert(first[back(doc)] == second[doc]);
            assert(count_in(document_tokens(first, back(doc)), term) > 0);
        }
    }
    assert forall|doc: int| 0 <= doc < first.len() implies IndexView::built(
        second,
    ).doc_names[#[trigger] to(doc)] == IndexView::built(first).doc_names[doc] && IndexView::built(
        second,
    ).doc_lengths[to(doc)] == IndexView::built(first).doc_lengths[doc] by {
        assert(second[to(doc)] == first[doc]);
    }
    assert forall|term: Seq<char>, doc: int| 0 <= doc < first.len() implies #[trigger] IndexView::built(
        second,
    ).term_count(term, to(doc) as nat) == IndexView::built(first).term_count(
        term,
        doc as nat,
    ) by {
        assert(second[to(doc)] == first[doc]);
        law_built_document_is_counted(first, doc, term);
        law_built_document_is_counted(second, to(doc), term);
    }
}

} // verus!
