//! Term frequency and inverse document frequency over documents that are
//! held one by one, each with its own term counts.

use vstd::prelude::*;
use crate::score::{idf_of, Idf, Tf, TfIdf};
use crate::term_counts::TermCounts;

verus! {

/// How many of `documents` contain `term`.
pub open spec fn containing_docs(documents: Seq<TermCounts>, term: Seq<char>) -> nat
    decreases documents.len(),
{
    if documents.len() == 0 {
        0
    } else {
        containing_docs(documents.drop_last(), term) + if documents.last()@.contains_key(term) {
            1nat
        } else {
            0nat
        }
    }
}

/// The term frequency of `query` in the document `doc`: the count of the
/// term over the count of all tokens. A term that the document does not
/// contain has the count 0.
pub fn compute_tf(doc: &TermCounts, query: &str) -> (tf: Tf)
    requires
        doc.wf(),
    ensures
        tf.count == if doc@.contains_key(query@) {
            doc@[query@]
        } else {
            0
        },
        tf.total == doc.total(),
        !doc@.contains_key(query@) ==> tf.is_zero(),
{
    Tf { count: doc.count(query), total: doc.total_words() }
}

/// The inverse document frequency of `query` among `documents`: the
/// logarithm of the number of documents over the number of those that
/// contain the term, and 0 if none does.
pub fn compute_idf(documents: &Vec<TermCounts>, query: &str) -> (idf: Idf)
    requires
        forall|i: int| 0 <= i < documents@.len() ==> (#[trigger] documents@[i]).wf(),
    ensures
        containing_docs(documents@, query@) <= documents@.len(),
        idf == idf_of(documents@.len() as usize, containing_docs(documents@, query@) as usize),
{
    let mut containing: usize = 0;
    let mut i: usize = 0;
    while i < documents.len()
        invariant
            i <= documents.len(),
            containing == containing_docs(documents@.take(i as int), query@),
            containing <= i,
            forall|j: int| 0 <= j < documents@.len() ==> (#[trigger] documents@[j]).wf(),
        decreases documents.len() - i,
    {
        proof {
            assert(documents@.take(i + 1).drop_last() =~= documents@.take(i as int));
        }
        if documents[i].count(query) > 0 {
            containing = containing + 1;
        } else {
            proof {
                documents@[i as int].lemma_wf();
            }
        }
        i = i + 1;
    }
    proof {
        assert(documents@.take(i as int) =~= documents@);
    }
    if containing == 0 {
        Idf::Zero
    } else {
        Idf::Ln { docs: documents.len(), containing }
    }
}

/// The product of a term frequency and an inverse document frequency.
pub fn compute_tf_idf(tf: Tf, idf: Idf) -> (product: TfIdf)
    ensures
        product == (TfIdf { tf, idf }),
{
    TfIdf { tf, idf }
}

} // verus!
