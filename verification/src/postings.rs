//! Posting lists, and the table that holds one for every term.

use vstd::prelude::*;
use vstd::string::StringExecFns;
use crate::vocabulary::{
    distinct, keyed, lemma_index_of, lemma_keyed_at, lemma_keyed_push, lemma_keyed_update,
    Vocabulary,
};

verus! {

/// The document numbers of a posting list grow from each entry to the next,
/// so that no document stands twice.
pub open spec fn ascending(list: Seq<(usize, usize)>) -> bool {
    forall|i: int, j: int| 0 <= i < j < list.len() ==> (#[trigger] list[i]).0 < (#[trigger] list[j]).0
}

/// A posting list as a map from document number to count.
pub open spec fn posting_map(list: Seq<(usize, usize)>) -> Map<nat, nat>
    decreases list.len(),
{
    if list.len() == 0 {
        Map::empty()
    } else {
        posting_map(list.drop_last()).insert(list.last().0 as nat, list.last().1 as nat)
    }
}

/// The map of an ascending posting list has one key for every entry, and
/// holds the entry's count under it.
pub proof fn lemma_posting_map(list: Seq<(usize, usize)>)
    requires
        ascending(list),
    ensures
        posting_map(list).dom().finite(),
        posting_map(list).dom().len() == list.len(),
        forall|i: int|
            0 <= i < list.len() ==> posting_map(list).contains_key((#[trigger] list[i]).0 as nat)
                && posting_map(list)[list[i].0 as nat] == list[i].1,
        forall|doc: nat| #[trigger]
            posting_map(list).contains_key(doc) ==> exists|i: int|
                0 <= i < list.len() && (#[trigger] list[i]).0 == doc,
    decreases list.len(),
{
    if list.len() > 0 {
        let init = list.drop_last();
        let last = list.last();
        assert(ascending(init)) by {
            assert forall|i: int, j: int| 0 <= i < j < init.len() implies (#[trigger] init[i]).0 < (
            #[trigger] init[j]).0 by {
                assert(init[i] == list[i] && init[j] == list[j]);
            }
        }
        lemma_posting_map(init);
        assert(!posting_map(init).contains_key(last.0 as nat)) by {
            if posting_map(init).contains_key(last.0 as nat) {
                let i = choose|i: int| 0 <= i < init.len() && (#[trigger] init[i]).0 == last.0;
                assert(list[i].0 < list[list.len() - 1].0);
            }
        }
        assert forall|i: int| 0 <= i < list.len() implies posting_map(list).contains_key(
            (#[trigger] list[i]).0 as nat,
        ) && posting_map(list)[list[i].0 as nat] == list[i].1 by {
            if i < init.len() {
                assert(init[i] == list[i]);
                assert(list[i].0 < list[list.len() - 1].0);
            }
        }
        assert forall|doc: nat| #[trigger] posting_map(list).contains_key(doc) implies exists|
            i: int,
        |
            0 <= i < list.len() && (#[trigger] list[i]).0 == doc by {
            if doc == last.0 {
                assert(list[list.len() - 1].0 == doc);
            } else {
                let i = choose|i: int| 0 <= i < init.len() && (#[trigger] init[i]).0 == doc;
                assert(list[i].0 == doc);
            }
        }
    }
}

/// Two ascending posting lists that are the same map are the same list.
pub proof fn lemma_ascending_unique(a: Seq<(usize, usize)>, b: Seq<(usize, usize)>)
    requires
        ascending(a),
        ascending(b),
        posting_map(a) == posting_map(b),
    ensures
        a == b,
    decreases a.len(),
{
    lemma_posting_map(a);
    lemma_posting_map(b);
    if a.len() == 0 {
        assert(a =~= b);
    } else {
        let last_a = a.last();
        let last_b = b.last();
        let i = choose|i: int| 0 <= i < a.len() && (#[trigger] a[i]).0 == last_b.0 as nat;
        let j = choose|j: int| 0 <= j < b.len() && (#[trigger] b[j]).0 == last_a.0 as nat;
        assert(a[i].0 <= a[a.len() - 1].0);
        assert(b[j].0 <= b[b.len() - 1].0);
        assert(last_a.0 == last_b.0);
        assert(posting_map(a)[a[a.len() - 1].0 as nat] == last_a.1);
        assert(posting_map(b)[b[b.len() - 1].0 as nat] == last_b.1);
        let init_a = a.drop_last();
        let init_b = b.drop_last();
        assert(ascending(init_a) && ascending(init_b)) by {
            assert forall|x: int, y: int| 0 <= x < y < init_a.len() implies (
            #[trigger] init_a[x]).0 < (#[trigger] init_a[y]).0 by {
                assert(init_a[x] == a[x] && init_a[y] == a[y]);
            }
            assert forall|x: int, y: int| 0 <= x < y < init_b.len() implies (
            #[trigger] init_b[x]).0 < (#[trigger] init_b[y]).0 by {
                assert(init_b[x] == b[x] && init_b[y] == b[y]);
            }
        }
        lemma_posting_map(init_a);
        lemma_posting_map(init_b);
        assert(!posting_map(init_a).contains_key(last_a.0 as nat)) by {
            if posting_map(init_a).contains_key(last_a.0 as nat) {
                let k = choose|k: int| 0 <= k < init_a.len() && (#[trigger] init_a[k]).0 == last_a.0;
                assert(a[k].0 < a[a.len() - 1].0);
            }
        }
        assert(!posting_map(init_b).contains_key(last_b.0 as nat)) by {
            if posting_map(init_b).contains_key(last_b.0 as nat) {
                let k = choose|k: int| 0 <= k < init_b.len() && (#[trigger] init_b[k]).0 == last_b.0;
                assert(b[k].0 < b[b.len() - 1].0);
            }
        }
        assert(posting_map(init_a) =~= posting_map(a).remove(last_a.0 as nat));
        assert(posting_map(init_b) =~= posting_map(b).remove(last_b.0 as nat));
        lemma_ascending_unique(init_a, init_b);
        assert(a =~= init_a.push(last_a));
        assert(b =~= init_b.push(last_b));
    }
}

/// Whether two posting lists hold the same entries in the same order.
pub fn same_list(a: &Vec<(usize, usize)>, b: &Vec<(usize, usize)>) -> (same: bool)
    ensures
        same == (a@ == b@),
{
    if a.len() != b.len() {
        return false;
    }
    let mut j: usize = 0;
    while j < a.len()
        invariant
            j <= a.len() == b.len(),
            forall|k: int| 0 <= k < j ==> a@[k] == b@[k],
        decreases a.len() - j,
    {
        if a[j].0 != b[j].0 || a[j].1 != b[j].1 {
            return false;
        }
        j = j + 1;
    }
    assert(a@ =~= b@);
    true
}

/// The map that pairs each of `terms` with the posting list at the same
/// place, the list as a map.
pub open spec fn table_map(terms: Seq<Seq<char>>, lists: Seq<Seq<(usize, usize)>>) -> Map<
    Seq<char>,
    Map<nat, nat>,
> {
    keyed(terms, lists.map_values(|list: Seq<(usize, usize)>| posting_map(list)))
}

/// The postings of an index: for every term a posting list, which names the
/// documents that contain the term, each with the number of occurrences.
pub struct PostingTable {
    vocabulary: Vocabulary,
    lists: Vec<Vec<(usize, usize)>>,
}

impl View for PostingTable {
    type V = Map<Seq<char>, Map<nat, nat>>;

    /// For every term the map from document number to count.
    open spec fn view(&self) -> Map<Seq<char>, Map<nat, nat>> {
        table_map(self.terms(), self.lists())
    }
}

impl PostingTable {
    /// The terms in the order in which the table came to hold them.
    pub closed spec fn terms(&self) -> Seq<Seq<char>> {
        self.vocabulary@
    }

    /// The posting lists, in the order of [`PostingTable::terms`].
    pub closed spec fn lists(&self) -> Seq<Seq<(usize, usize)>> {
        Seq::new(self.lists@.len(), |i: int| self.lists@[i]@)
    }

    /// Every term stands once, and every posting list is ascending.
    pub closed spec fn wf(&self) -> bool {
        &&& self.vocabulary.wf()
        &&& self.lists@.len() == self.vocabulary@.len()
        &&& forall|i: int| 0 <= i < self.lists@.len() ==> ascending(#[trigger] self.lists@[i]@)
    }

    /// What well-formedness means to a reader of the two sequences.
    pub proof fn lemma_wf(&self)
        requires
            self.wf(),
        ensures
            distinct(self.terms()),
            self.terms().len() == self.lists().len(),
            forall|i: int| 0 <= i < self.lists().len() ==> ascending(#[trigger] self.lists()[i]),
            forall|i: int|
                0 <= i < self.terms().len() ==> self@.contains_key(#[trigger] self.terms()[i])
                    && self@[self.terms()[i]] == posting_map(self.lists()[i]),
            forall|term: Seq<char>| #[trigger]
                self@.contains_key(term) ==> self.terms().contains(term) && self@[term].dom().finite(),
    {
        self.vocabulary.lemma_distinct();
        assert forall|i: int| 0 <= i < self.lists().len() implies ascending(
            #[trigger] self.lists()[i],
        ) by {
            assert(ascending(self.lists@[i]@));
        }
        assert forall|i: int| 0 <= i < self.terms().len() implies self@.contains_key(
            #[trigger] self.terms()[i],
        ) && self@[self.terms()[i]] == posting_map(self.lists()[i]) by {
            lemma_keyed_at(
                self.terms(),
                self.lists().map_values(|list: Seq<(usize, usize)>| posting_map(list)),
                i,
            );
        }
        assert forall|term: Seq<char>| #[trigger] self@.contains_key(term) implies self@[term].dom()
            .finite() by {
            let i = self.terms().index_of(term);
            assert(ascending(self.lists()[i]));
            lemma_posting_map(self.lists()[i]);
        }
    }

    /// A table without terms.
    pub fn new() -> (table: Self)
        ensures
            table.wf(),
            table@ == Map::<Seq<char>, Map<nat, nat>>::empty(),
            table.terms() == Seq::<Seq<char>>::empty(),
            table.lists() == Seq::<Seq<(usize, usize)>>::empty(),
    {
        let table = PostingTable { vocabulary: Vocabulary::new(), lists: Vec::new() };
        assert(table@ =~= Map::<Seq<char>, Map<nat, nat>>::empty());
        assert(table.lists() =~= Seq::<Seq<(usize, usize)>>::empty());
        table
    }

    /// The number of terms.
    pub fn len(&self) -> (n: usize)
        requires
            self.wf(),
        ensures
            n == self.terms().len(),
    {
        self.vocabulary.len()
    }

    /// The place of `term` in the table, `None` if the table does not hold
    /// it.
    pub fn find(&self, term: &str) -> (slot: Option<usize>)
        requires
            self.wf(),
        ensures
            match slot {
                Some(s) => s < self.terms().len() && self.terms()[s as int] == term@
                    && self@.contains_key(term@),
                None => !self@.contains_key(term@),
            },
    {
        self.vocabulary.id_of(term)
    }

    /// The term at the place `slot`.
    pub fn term(&self, slot: usize) -> (term: &str)
        requires
            self.wf(),
            slot < self.terms().len(),
        ensures
            term@ == self.terms()[slot as int],
            self@.contains_key(term@),
    {
        proof {
            self.lemma_wf();
        }
        self.vocabulary.term(slot)
    }

    /// The posting list at the place `slot`.
    pub fn list(&self, slot: usize) -> (list: &Vec<(usize, usize)>)
        requires
            self.wf(),
            slot < self.terms().len(),
        ensures
            list@ == self.lists()[slot as int],
            ascending(list@),
            posting_map(list@) == self@[self.terms()[slot as int]],
            list@.len() == self@[self.terms()[slot as int]].dom().len(),
    {
        proof {
            self.lemma_wf();
            lemma_posting_map(self.lists()[slot as int]);
        }
        &self.lists[slot]
    }

    /// Adds the document `doc` with `count` occurrences to the posting list
    /// of `term`, which may be a new term. The document's number must lie
    /// above all those that the list holds.
    pub fn append(&mut self, term: &str, doc: usize, count: usize)
        requires
            old(self).wf(),
            old(self)@.contains_key(term@) ==> forall|d: nat| #[trigger]
                old(self)@[term@].contains_key(d) ==> d < doc,
        ensures
            final(self).wf(),
            final(self)@ == old(self)@.insert(
                term@,
                (if old(self)@.contains_key(term@) {
                    old(self)@[term@]
                } else {
                    Map::empty()
                }).insert(doc as nat, count as nat),
            ),
    {
        proof {
            self.lemma_wf();
        }
        match self.vocabulary.id_of(term) {
            Some(slot) => {
                let ghost before = self.lists@[slot as int]@;
                proof {
                    lemma_posting_map(before);
                    assert(before == self.lists()[slot as int]);
                    assert forall|j: int| 0 <= j < before.len() implies (#[trigger] before[j]).0
                        < doc by {
                        assert(posting_map(before).contains_key(before[j].0 as nat));
                    }
                }
                self.lists[slot].push((doc, count));
                proof {
                    let after = before.push((doc, count));
                    assert(after.drop_last() =~= before);
                    let maps = old(self).lists().map_values(
                        |list: Seq<(usize, usize)>| posting_map(list),
                    );
                    assert(self.lists() =~= old(self).lists().update(slot as int, after));
                    assert(self.lists().map_values(|list: Seq<(usize, usize)>| posting_map(list))
                        =~= maps.update(slot as int, posting_map(after)));
                    lemma_keyed_at(old(self).terms(), maps, slot as int);
                    lemma_keyed_update(old(self).terms(), maps, slot as int, posting_map(after));
                }
            },
            None => {
                let mut list = Vec::new();
                list.push((doc, count));
                proof {
                    assert(list@.drop_last() =~= Seq::<(usize, usize)>::empty());
                    assert(posting_map(list@.drop_last()) =~= Map::<nat, nat>::empty());
                    assert(list@.last() == (doc, count));
                    assert(posting_map(list@) =~= Map::<nat, nat>::empty().insert(
                        doc as nat,
                        count as nat,
                    ));
                }
                self.vocabulary.insert(String::from_str(term));
                self.lists.push(list);
                proof {
                    let maps = old(self).lists().map_values(
                        |list: Seq<(usize, usize)>| posting_map(list),
                    );
                    assert(self.lists() =~= old(self).lists().push(list@));
                    assert(self.lists().map_values(|list: Seq<(usize, usize)>| posting_map(list))
                        =~= maps.push(posting_map(list@)));
                    lemma_keyed_push(old(self).terms(), maps, term@, posting_map(list@));
                }
            },
        }
    }

    /// Adds a term that the table does not hold yet, with its posting list.
    pub fn insert(&mut self, term: String, list: Vec<(usize, usize)>)
        requires
            old(self).wf(),
            !old(self)@.contains_key(term@),
            ascending(list@),
        ensures
            final(self).wf(),
            final(self)@ == old(self)@.insert(term@, posting_map(list@)),
            final(self).terms() == old(self).terms().push(term@),
            final(self).lists() == old(self).lists().push(list@),
    {
        proof {
            self.lemma_wf();
        }
        let ghost chars = term@;
        let ghost entries = list@;
        self.vocabulary.insert(term);
        self.lists.push(list);
        proof {
            let maps = old(self).lists().map_values(
                |list: Seq<(usize, usize)>| posting_map(list),
            );
            assert(self.lists() =~= old(self).lists().push(entries));
            assert(self.lists().map_values(|list: Seq<(usize, usize)>| posting_map(list))
                =~= maps.push(posting_map(entries)));
            lemma_keyed_push(old(self).terms(), maps, chars, posting_map(entries));
        }
    }

    /// Whether `other` holds every term of this table, with the same
    /// postings.
    pub fn included_in(&self, other: &PostingTable) -> (included: bool)
        requires
            self.wf(),
            other.wf(),
        ensures
            included == (forall|term: Seq<char>| #[trigger]
                self@.contains_key(term) ==> other@.contains_key(term) && other@[term]
                    == self@[term]),
    {
        let n = self.len();
        let mut slot: usize = 0;
        proof {
            self.lemma_wf();
        }
        while slot < n
            invariant
                slot <= n == self.terms().len(),
                self.wf(),
                other.wf(),
                forall|k: int|
                    0 <= k < slot ==> other@.contains_key(#[trigger] self.terms()[k]) && other@[self.terms()[k]]
                        == self@[self.terms()[k]],
            decreases n - slot,
        {
            let term = self.term(slot);
            match other.find(term) {
                Some(place) => {
                    let mine = self.list(slot);
                    let theirs = other.list(place);
                    if !same_list(mine, theirs) {
                        proof {
                            if posting_map(mine@) == posting_map(theirs@) {
                                lemma_ascending_unique(mine@, theirs@);
                            }
                        }
                        return false;
                    }
                },
                None => {
                    return false;
                },
            }
            slot = slot + 1;
        }
        proof {
            assert forall|term: Seq<char>| #[trigger] self@.contains_key(term) implies other@
                .contains_key(term) && other@[term] == self@[term] by {
                let k = self.terms().index_of(term);
                assert(self.terms()[k] == term);
            }
        }
        true
    }

    /// Removes every term whose posting list holds `cutoff` documents or
    /// more.
    pub fn retain_below(&mut self, cutoff: usize)
        requires
            old(self).wf(),
        ensures
            final(self).wf(),
            final(self)@ == old(self)@.restrict(
                Set::new(
                    |term: Seq<char>|
                        old(self)@.contains_key(term) && old(self)@[term].dom().len() < cutoff,
                ),
            ),
    {
        let ghost terms = self.terms();
        let ghost lists = self.lists();
        let ghost table = self@;
        let mut kept = PostingTable::new();
        let n = self.lists.len();
        let mut slot: usize = 0;
        proof {
            self.lemma_wf();
        }
        while slot < n
            invariant
                slot <= n == terms.len() == lists.len(),
                distinct(terms),
                table == table_map(terms, lists),
                self.vocabulary.wf(),
                self.vocabulary@ == terms,
                self.lists@.len() == n,
                forall|i: int| slot <= i < n ==> (#[trigger] self.lists@[i])@ == lists[i],
                forall|i: int| 0 <= i < n ==> ascending(#[trigger] lists[i]),
                kept.wf(),
                forall|t: Seq<char>| #[trigger]
                    kept@.contains_key(t) <==> (exists|i: int|
                        0 <= i < slot && #[trigger] terms[i] == t && lists[i].len() < cutoff),
                forall|t: Seq<char>| #[trigger] kept@.contains_key(t) ==> kept@[t] == table[t],
            decreases n - slot,
        {
            proof {
                lemma_index_of(terms, slot as int);
            }
            if self.lists[slot].len() < cutoff {
                let mut list = Vec::new();
                core::mem::swap(&mut self.lists[slot], &mut list);
                let term = String::from_str(self.vocabulary.term(slot));
                proof {
                    if kept@.contains_key(term@) {
                        let i = choose|i: int|
                            0 <= i < slot && #[trigger] terms[i] == term@ && lists[i].len() < cutoff;
                        assert(terms[i] == terms[slot as int]);
                    }
                }
                let ghost before = kept@;
                kept.insert(term, list);
                proof {
                    assert forall|t: Seq<char>| #[trigger] kept@.contains_key(t) implies (exists|
                        i: int,
                    |
                        0 <= i < slot + 1 && #[trigger] terms[i] == t && lists[i].len() < cutoff) by {
                        if t == terms[slot as int] {
                            assert(terms[slot as int] == t);
                        } else {
                            assert(before.contains_key(t));
                            let i = choose|i: int|
                                0 <= i < slot && #[trigger] terms[i] == t && lists[i].len() < cutoff;
                            assert(terms[i] == t);
                        }
                    }
                }
            } else {
                proof {
                    assert forall|t: Seq<char>|
                        (exists|i: int|
                            0 <= i < slot + 1 && #[trigger] terms[i] == t && lists[i].len()
                                < cutoff) implies #[trigger] kept@.contains_key(t) by {
                        let i = choose|i: int|
                            0 <= i < slot + 1 && #[trigger] terms[i] == t && lists[i].len() < cutoff;
                        assert(i < slot);
                    }
                }
            }
            slot = slot + 1;
        }
        proof {
            let wanted = table.restrict(
                Set::new(|t: Seq<char>| table.contains_key(t) && table[t].dom().len() < cutoff),
            );
            assert forall|t: Seq<char>| kept@.contains_key(t) <==> wanted.contains_key(t) by {
                if kept@.contains_key(t) {
                    let i = choose|i: int|
                        0 <= i < n && #[trigger] terms[i] == t && lists[i].len() < cutoff;
                    lemma_index_of(terms, i);
                    lemma_posting_map(lists[i]);
                }
                if wanted.contains_key(t) {
                    let i = terms.index_of(t);
                    lemma_posting_map(lists[i]);
                    assert(terms[i] == t);
                }
            }
            assert(kept@ =~= wanted);
        }
        *self = kept;
    }
}

} // verus!
