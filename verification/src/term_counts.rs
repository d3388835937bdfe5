//! How often each term occurs in one document.

use std::borrow::Cow;
use vstd::prelude::*;
use vstd::string::StringExecFns;
use crate::crawler::Crawler;
use crate::text::tokens;
use crate::vocabulary::{
    distinct, keyed, lemma_keyed_at, lemma_keyed_push, lemma_keyed_update, Vocabulary,
};

verus! {

/// How often `term` occurs among `tokens`.
pub open spec fn count_in(tokens: Seq<Seq<char>>, term: Seq<char>) -> nat
    decreases tokens.len(),
{
    if tokens.len() == 0 {
        0
    } else {
        count_in(tokens.drop_last(), term) + if tokens.last() == term {
            1nat
        } else {
            0nat
        }
    }
}

/// The terms that occur among `tokens`, each with the number of its
/// occurrences. A term that does not occur is no key of the map.
pub open spec fn occurrences(tokens: Seq<Seq<char>>) -> Map<Seq<char>, nat> {
    Map::new(|term: Seq<char>| count_in(tokens, term) > 0, |term: Seq<char>| count_in(tokens, term))
}

/// The sum of a sequence of counts.
pub open spec fn sum_of(counts: Seq<usize>) -> nat
    decreases counts.len(),
{
    if counts.len() == 0 {
        0
    } else {
        sum_of(counts.drop_last()) + counts.last() as nat
    }
}

/// The map that pairs each of `terms` with the count at the same place.
pub open spec fn paired(terms: Seq<Seq<char>>, counts: Seq<usize>) -> Map<Seq<char>, nat> {
    keyed(terms, counts.map_values(|count: usize| count as nat))
}

/// A term occurs no more often than there are tokens, and a term occurs
/// among the tokens exactly if its count is positive.
pub proof fn lemma_count_in(tokens: Seq<Seq<char>>, term: Seq<char>)
    ensures
        count_in(tokens, term) <= tokens.len(),
        count_in(tokens, term) > 0 <==> tokens.contains(term),
    decreases tokens.len(),
{
    if tokens.len() > 0 {
        let init = tokens.drop_last();
        lemma_count_in(init, term);
        if init.contains(term) {
            let i = choose|i: int| 0 <= i < init.len() && init[i] == term;
            assert(tokens[i] == term);
        }
        if tokens.contains(term) && tokens.last() != term {
            let i = choose|i: int| 0 <= i < tokens.len() && tokens[i] == term;
            assert(init[i] == term);
        }
    }
}

/// One more token raises the count of its term by one and no other.
pub proof fn lemma_occurrences_push(tokens: Seq<Seq<char>>, term: Seq<char>)
    ensures
        occurrences(tokens.push(term)) == occurrences(tokens).insert(
            term,
            count_in(tokens, term) + 1,
        ),
{
    assert(tokens.push(term).drop_last() =~= tokens);
    assert(occurrences(tokens.push(term)) =~= occurrences(tokens).insert(
        term,
        count_in(tokens, term) + 1,
    ));
}

/// The sum after one count was replaced.
pub proof fn lemma_sum_update(counts: Seq<usize>, i: int, count: usize)
    requires
        0 <= i < counts.len(),
    ensures
        sum_of(counts.update(i, count)) == sum_of(counts) - counts[i] + count,
        counts[i] <= sum_of(counts),
    decreases counts.len(),
{
    if i == counts.len() - 1 {
        assert(counts.update(i, count).drop_last() =~= counts.drop_last());
    } else {
        assert(counts.update(i, count).drop_last() =~= counts.drop_last().update(i, count));
        lemma_sum_update(counts.drop_last(), i, count);
    }
}

/// The sum after one count was appended.
pub proof fn lemma_sum_push(counts: Seq<usize>, count: usize)
    ensures
        sum_of(counts.push(count)) == sum_of(counts) + count,
{
    assert(counts.push(count).drop_last() =~= counts);
}

/// The term frequencies of one document: its distinct terms, each with the
/// number of its occurrences, and the number of all occurrences together.
pub struct TermCounts {
    vocabulary: Vocabulary,
    counts: Vec<usize>,
    total: usize,
}

impl View for TermCounts {
    type V = Map<Seq<char>, nat>;

    /// The count of every term that occurs.
    open spec fn view(&self) -> Map<Seq<char>, nat> {
        paired(self.terms(), self.counts())
    }
}

impl TermCounts {
    /// The distinct terms in the order of their first occurrence.
    pub closed spec fn terms(&self) -> Seq<Seq<char>> {
        self.vocabulary@
    }

    /// The counts, in the order of [`TermCounts::terms`].
    pub closed spec fn counts(&self) -> Seq<usize> {
        self.counts@
    }

    /// The number of all occurrences together.
    pub closed spec fn total(&self) -> nat {
        self.total as nat
    }

    /// Every term stands once, with a positive count, and the counts add up
    /// to the total.
    pub closed spec fn wf(&self) -> bool {
        &&& self.vocabulary.wf()
        &&& self.counts@.len() == self.vocabulary@.len()
        &&& forall|i: int| 0 <= i < self.counts@.len() ==> #[trigger] self.counts@[i] >= 1
        &&& self.total == sum_of(self.counts@)
    }

    /// What well-formedness means to a reader of the two sequences.
    pub proof fn lemma_wf(&self)
        requires
            self.wf(),
        ensures
            distinct(self.terms()),
            self.terms().len() == self.counts().len(),
            self.total() == sum_of(self.counts()),
            self.total() <= usize::MAX,
            forall|i: int| 0 <= i < self.counts().len() ==> #[trigger] self.counts()[i] >= 1,
            forall|i: int|
                0 <= i < self.terms().len() ==> self@.contains_key(#[trigger] self.terms()[i])
                    && self@[self.terms()[i]] == self.counts()[i],
            forall|term: Seq<char>| #[trigger]
                self@.contains_key(term) ==> 1 <= self@[term] <= self.total(),
    {
        self.vocabulary.lemma_distinct();
        let values = self.counts().map_values(|count: usize| count as nat);
        assert forall|i: int| 0 <= i < self.terms().len() implies self@.contains_key(
            #[trigger] self.terms()[i],
        ) && self@[self.terms()[i]] == self.counts()[i] by {
            lemma_keyed_at(self.terms(), values, i);
        }
        assert forall|term: Seq<char>| #[trigger] self@.contains_key(term) implies 1 <= self@[term]
            <= self.total() by {
            let i = self.terms().index_of(term);
            lemma_sum_update(self.counts(), i, 0);
        }
    }

    /// Counts of no term at all.
    pub fn new() -> (counts: Self)
        ensures
            counts.wf(),
            counts@ == Map::<Seq<char>, nat>::empty(),
            counts.terms() == Seq::<Seq<char>>::empty(),
            counts.counts() == Seq::<usize>::empty(),
            counts.total() == 0,
    {
        let counts = TermCounts { vocabulary: Vocabulary::new(), counts: Vec::new(), total: 0 };
        assert(counts@ =~= Map::<Seq<char>, nat>::empty());
        counts
    }

    /// Counts one more occurrence of `term`.
    pub fn record(&mut self, term: Cow<'_, str>)
        requires
            old(self).wf(),
            old(self).total() < usize::MAX,
        ensures
            final(self).wf(),
            final(self)@ == old(self)@.insert(
                term@,
                if old(self)@.contains_key(term@) {
                    old(self)@[term@] + 1
                } else {
                    1
                },
            ),
            final(self).total() == old(self).total() + 1,
    {
        let ghost chars = term@;
        proof {
            self.lemma_wf();
        }
        let found = match &term {
            Cow::Borrowed(text) => self.vocabulary.id_of(text),
            Cow::Owned(text) => self.vocabulary.id_of(text.as_str()),
        };
        let ghost values = self.counts@.map_values(|count: usize| count as nat);
        match found {
            Some(id) => {
                let ghost raised = (self.counts@[id as int] + 1) as usize;
                proof {
                    lemma_sum_update(self.counts@, id as int, raised);
                    lemma_keyed_at(self.terms(), values, id as int);
                    lemma_keyed_update(self.terms(), values, id as int, raised as nat);
                    assert(self.counts@.update(id as int, raised).map_values(
                        |count: usize| count as nat,
                    ) =~= values.update(id as int, raised as nat));
                }
                self.counts[id] = self.counts[id] + 1;
                self.total = self.total + 1;
            },
            None => {
                let owned = match term {
                    Cow::Borrowed(text) => String::from_str(text),
                    Cow::Owned(text) => text,
                };
                proof {
                    lemma_sum_push(self.counts@, 1);
                    lemma_keyed_push(self.terms(), values, chars, 1nat);
                    assert(self.counts@.push(1).map_values(|count: usize| count as nat)
                        =~= values.push(1nat));
                }
                self.vocabulary.insert(owned);
                self.counts.push(1);
                self.total = self.total + 1;
            },
        }
    }

    /// The term frequencies of a text: the text is cut into tokens as a
    /// [`Crawler`] cuts it, and every token is counted under its term.
    pub fn of_text(text: &str) -> (counts: Self)
        ensures
            counts.wf(),
            counts@ == occurrences(tokens(text@, false)),
            counts.total() == tokens(text@, false).len(),
    {
        let mut crawler = Crawler::new(text);
        let mut counts = TermCounts::new();
        let ghost all = tokens(text@, false);
        let ghost mut done = Seq::<Seq<char>>::empty();
        proof {
            assert(occurrences(done) =~= Map::<Seq<char>, nat>::empty());
            assert(done + crawler.remaining() =~= all);
        }
        loop
            invariant
                crawler.wf(),
                crawler.text() == text@,
                counts.wf(),
                done + crawler.remaining() == all,
                counts@ == occurrences(done),
                counts.total() == done.len(),
                done.len() <= crawler.position(),
            ensures
                counts.wf(),
                counts@ == occurrences(all),
                counts.total() == all.len(),
            decreases crawler.text().len() - crawler.position(),
        {
            proof {
                crawler.lemma_position_in_text();
            }
            let ghost before = crawler.remaining();
            match crawler.next_token() {
                Some(term) => {
                    proof {
                        crawler.lemma_position_in_text();
                        lemma_occurrences_push(done, term@);
                        lemma_count_in(done, term@);
                        assert(done.push(term@) + crawler.remaining() =~= done + before);
                        done = done.push(term@);
                    }
                    counts.record(term);
                },
                None => {
                    proof {
                        assert(done + before =~= done);
                    }
                    break ;
                },
            }
        }
        counts
    }

    /// Enters `term` with the count `count`, unless the term is entered
    /// already, the count is 0, or the total would no longer fit; tells
    /// whether it did.
    pub fn insert_count(&mut self, term: String, count: usize) -> (entered: bool)
        requires
            old(self).wf(),
        ensures
            final(self).wf(),
            entered == (!old(self)@.contains_key(term@) && count >= 1 && old(self).total() + count
                <= usize::MAX),
            entered ==> final(self)@ == old(self)@.insert(term@, count as nat)
                && final(self).terms() == old(self).terms().push(term@)
                && final(self).counts() == old(self).counts().push(count)
                && final(self).total() == old(self).total() + count,
            !entered ==> *final(self) == *old(self),
    {
        proof {
            self.lemma_wf();
        }
        if count < 1 || count > usize::MAX - self.total {
            return false;
        }
        if self.vocabulary.id_of(term.as_str()).is_some() {
            return false;
        }
        proof {
            let values = self.counts@.map_values(|count: usize| count as nat);
            lemma_sum_push(self.counts@, count);
            lemma_keyed_push(self.terms(), values, term@, count as nat);
            assert(self.counts@.push(count).map_values(|count: usize| count as nat)
                =~= values.push(count as nat));
        }
        self.vocabulary.insert(term);
        self.counts.push(count);
        self.total = self.total + count;
        true
    }

    /// The number of distinct terms.
    pub fn len(&self) -> (n: usize)
        requires
            self.wf(),
        ensures
            n == self.terms().len(),
    {
        self.vocabulary.len()
    }

    /// The `i`-th distinct term.
    pub fn term(&self, i: usize) -> (term: &str)
        requires
            self.wf(),
            i < self.terms().len(),
        ensures
            term@ == self.terms()[i as int],
    {
        self.vocabulary.term(i)
    }

    /// The count of the `i`-th distinct term.
    pub fn count_at(&self, i: usize) -> (count: usize)
        requires
            self.wf(),
            i < self.terms().len(),
        ensures
            count == self.counts()[i as int],
            count == self@[self.terms()[i as int]],
            1 <= count <= self.total(),
    {
        proof {
            self.lemma_wf();
        }
        self.counts[i]
    }

    /// How often `term` occurs, 0 for a term that does not occur.
    pub fn count(&self, term: &str) -> (count: usize)
        requires
            self.wf(),
        ensures
            count == if self@.contains_key(term@) {
                self@[term@]
            } else {
                0
            },
    {
        proof {
            self.lemma_wf();
        }
        match self.vocabulary.id_of(term) {
            Some(id) => self.counts[id],
            None => 0,
        }
    }

    /// Whether `other` counts every term of these counts as often.
    pub fn included_in(&self, other: &TermCounts) -> (included: bool)
        requires
            self.wf(),
            other.wf(),
        ensures
            included == (forall|term: Seq<char>| #[trigger]
                self@.contains_key(term) ==> other@.contains_key(term) && other@[term]
                    == self@[term]),
    {
        let n = self.len();
        let mut i: usize = 0;
        proof {
            self.lemma_wf();
            other.lemma_wf();
        }
        while i < n
            invariant
                i <= n == self.terms().len(),
                self.wf(),
                other.wf(),
                forall|k: int|
                    0 <= k < i ==> other@.contains_key(#[trigger] self.terms()[k]) && other@[self.terms()[k]]
                        == self@[self.terms()[k]],
            decreases n - i,
        {
            proof {
                self.lemma_wf();
                other.lemma_wf();
            }
            if other.count(self.term(i)) != self.count_at(i) {
                return false;
            }
            i = i + 1;
        }
        proof {
            assert forall|term: Seq<char>| #[trigger] self@.contains_key(term) implies other@
                .contains_key(term) && other@[term] == self@[term] by {
                let k = self.terms().index_of(term);
                assert(self.terms()[k] == term);
            }
        }
        true
    }

    /// The number of all occurrences together.
    pub fn total_words(&self) -> (total: usize)
        ensures
            total == self.total(),
    {
        self.total
    }
}

} // verus!
