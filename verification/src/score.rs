//! Exact TF-IDF values.
//!
//! A score is a sum of products `tf * idf`, where `tf` is a ratio of two
//! counts and `idf` the natural logarithm of such a ratio. The types below
//! hold the counts and leave the arithmetic on real numbers to the caller;
//! what can be decided on the counts alone (whether a value is zero or
//! positive, which of two `idf` values is larger) is decided here.
//!
//! Ranking is decided here too: [`rank`] orders documents by anything that
//! has a [`Rank`], which the weights of one term have, and the numbers that
//! a caller has evaluated scores to.

use vstd::prelude::*;
use vstd::seq_lib::to_multiset_insert;

verus! {

/// A term frequency: `count` occurrences of a term among the `total` tokens
/// of a document, the value `count / total`.
#[derive(Clone, Copy, Debug, PartialEq, Eq, Structural)]
pub struct Tf {
    pub count: usize,
    pub total: usize,
}

/// An inverse document frequency.
#[derive(Clone, Copy, Debug, PartialEq, Eq, Structural)]
pub enum Idf {
    /// The value 0, given to a term that no document contains.
    Zero,
    /// The value `ln(docs / containing)`, for a term that `containing` of
    /// `docs` documents contain.
    Ln { docs: usize, containing: usize },
}

/// The product of a term frequency and an inverse document frequency.
#[derive(Clone, Copy, Debug, PartialEq, Eq, Structural)]
pub struct TfIdf {
    pub tf: Tf,
    pub idf: Idf,
}

/// The inverse document frequency of a term that `containing` of `docs`
/// documents contain.
pub open spec fn idf_of(docs: usize, containing: usize) -> Idf {
    if containing == 0 {
        Idf::Zero
    } else {
        Idf::Ln { docs, containing }
    }
}

impl Tf {
    /// The value is 0: the term does not occur.
    pub open spec fn is_zero(self) -> bool {
        self.count == 0
    }

    /// `self <= other` as fractions, for fractions with positive totals.
    pub open spec fn le(self, other: Tf) -> bool {
        self.count * other.total <= other.count * self.total
    }

    /// Whether `self > other` as fractions.
    pub fn exceeds(&self, other: &Tf) -> (greater: bool)
        ensures
            greater == !self.le(*other),
    {
        let left: u128 = self.count as u128;
        let right: u128 = other.count as u128;
        let left_total: u128 = self.total as u128;
        let right_total: u128 = other.total as u128;
        assert(left * right_total <= 0xffff_ffff_ffff_ffff * 0xffff_ffff_ffff_ffff
            && right * left_total <= 0xffff_ffff_ffff_ffff * 0xffff_ffff_ffff_ffff)
            by (nonlinear_arith)
            requires
                left <= 0xffff_ffff_ffff_ffff,
                right <= 0xffff_ffff_ffff_ffff,
                left_total <= 0xffff_ffff_ffff_ffff,
                right_total <= 0xffff_ffff_ffff_ffff,
        ;
        left * right_total > right * left_total
    }
}

/// The order of fractions with positive totals is transitive.
pub proof fn lemma_tf_le_transitive(a: Tf, b: Tf, c: Tf)
    requires
        a.le(b),
        b.le(c),
        0 < b.total,
    ensures
        a.le(c),
{
    let (ac, at) = (a.count as int, a.total as int);
    let (bc, bt) = (b.count as int, b.total as int);
    let (cc, ct) = (c.count as int, c.total as int);
    assert(ac * ct <= cc * at) by (nonlinear_arith)
        requires
            ac * bt <= bc * at,
            bc * ct <= cc * bt,
            0 < bt,
            0 <= ac,
            0 <= at,
            0 <= bc,
            0 <= cc,
            0 <= ct,
    {
        assert(ac * bt * ct <= bc * at * ct);
        assert(bc * ct * at <= cc * bt * at);
        assert(bc * at * ct == bc * ct * at);
        assert(ac * ct * bt == ac * bt * ct);
        assert(cc * at * bt == cc * bt * at);
        assert((ac * ct) * bt <= (cc * at) * bt);
    }
}

impl Idf {
    /// The numerator and the denominator of the ratio whose logarithm the
    /// value is; the value 0 is the logarithm of 1.
    pub open spec fn ratio(self) -> (nat, nat) {
        match self {
            Idf::Zero => (1, 1),
            Idf::Ln { docs, containing } => (docs as nat, containing as nat),
        }
    }

    /// The value is 0.
    pub open spec fn is_zero(self) -> bool {
        self.ratio().0 == self.ratio().1
    }

    /// The value is greater than 0: the ratio is greater than 1.
    pub open spec fn is_positive(self) -> bool {
        0 < self.ratio().1 < self.ratio().0
    }

    /// `self <= other` as real numbers, for values whose ratios have
    /// positive denominators: the logarithm grows with its argument, so the
    /// values stand as their ratios do.
    pub open spec fn le(self, other: Idf) -> bool {
        self.ratio().0 * other.ratio().1 <= other.ratio().0 * self.ratio().1
    }

    /// Whether the value is greater than 0.
    pub fn positive(&self) -> (positive: bool)
        ensures
            positive == self.is_positive(),
    {
        match self {
            Idf::Zero => false,
            Idf::Ln { docs, containing } => 0 < *containing && *containing < *docs,
        }
    }
}

impl TfIdf {
    /// The product is 0: one of its factors is.
    pub open spec fn is_zero(self) -> bool {
        self.tf.is_zero() || self.idf.is_zero()
    }

    /// The product is greater than 0: the term occurs in a document that is
    /// not empty, and fewer documents contain it than there are.
    pub open spec fn is_positive(self) -> bool {
        0 < self.tf.count && 0 < self.tf.total && self.idf.is_positive()
    }

    /// Whether the product is greater than 0.
    pub fn positive(&self) -> (positive: bool)
        ensures
            positive == self.is_positive(),
    {
        0 < self.tf.count && 0 < self.tf.total && self.idf.positive()
    }
}

/// Whether a sum of products is greater than 0, for products none of which
/// is negative: one of them is positive.
pub open spec fn sum_is_positive(terms: Seq<TfIdf>) -> bool {
    exists|i: int| 0 <= i < terms.len() && (#[trigger] terms[i]).is_positive()
}

/// Whether one of `terms` is greater than 0.
pub fn any_positive(terms: &Vec<TfIdf>) -> (positive: bool)
    ensures
        positive == sum_is_positive(terms@),
{
    let mut i: usize = 0;
    while i < terms.len()
        invariant
            i <= terms.len(),
            forall|j: int| 0 <= j < i ==> !(#[trigger] terms@[j]).is_positive(),
        decreases terms.len() - i,
    {
        if terms[i].positive() {
            return true;
        }
        i = i + 1;
    }
    false
}

/// A value by which documents are ranked: a total preorder, with a test
/// that decides it.
pub trait Rank: Sized {
    /// `self` ranks no higher than `other`.
    spec fn not_above(self, other: Self) -> bool;

    /// The value takes part in the order. Nothing is claimed of the order
    /// among other values.
    spec fn ranks(self) -> bool;

    /// Of two values one ranks no higher than the other.
    proof fn lemma_total(a: Self, b: Self)
        ensures
            a.not_above(b) || b.not_above(a),
    ;

    /// What ranks no higher than a value ranks no higher than any that the
    /// value ranks no higher than.
    proof fn lemma_transitive(a: Self, b: Self, c: Self)
        requires
            a.not_above(b),
            b.not_above(c),
            b.ranks(),
        ensures
            a.not_above(c),
    ;

    /// Whether `self` ranks higher than `other`.
    fn above(&self, other: &Self) -> (higher: bool)
        ensures
            higher == !self.not_above(*other),
    ;
}

/// Weights rank by their term frequencies. Where they share one positive
/// inverse document frequency, as the weights of one term do, this is the
/// order of the weights themselves.
impl Rank for TfIdf {
    open spec fn not_above(self, other: Self) -> bool {
        self.tf.le(other.tf)
    }

    open spec fn ranks(self) -> bool {
        0 < self.tf.total
    }

    proof fn lemma_total(a: Self, b: Self) {
    }

    proof fn lemma_transitive(a: Self, b: Self, c: Self) {
        lemma_tf_le_transitive(a.tf, b.tf, c.tf);
    }

    fn above(&self, other: &Self) -> (higher: bool) {
        self.tf.exceeds(&other.tf)
    }
}

/// Numbers rank by their size. A score that was evaluated to a number that
/// is not negative can be ranked by the bits of the number.
impl Rank for u64 {
    open spec fn not_above(self, other: Self) -> bool {
        self <= other
    }

    open spec fn ranks(self) -> bool {
        true
    }

    proof fn lemma_total(a: Self, b: Self) {
    }

    proof fn lemma_transitive(a: Self, b: Self, c: Self) {
    }

    fn above(&self, other: &Self) -> (higher: bool) {
        *self > *other
    }
}

/// A score with the number that it was evaluated to: the weights that the
/// score is the sum of, and a key that stands for the sum. Scores rank by
/// their keys.
pub struct Scored {
    pub weights: Vec<TfIdf>,
    pub key: u64,
}

impl Rank for Scored {
    open spec fn not_above(self, other: Self) -> bool {
        self.key <= other.key
    }

    open spec fn ranks(self) -> bool {
        true
    }

    proof fn lemma_total(a: Self, b: Self) {
    }

    proof fn lemma_transitive(a: Self, b: Self, c: Self) {
    }

    fn above(&self, other: &Self) -> (higher: bool) {
        self.key > other.key
    }
}

/// Documents with a rank each, as plain sequences.
pub open spec fn hits_view<K>(hits: Seq<(String, K)>) -> Seq<(Seq<char>, K)> {
    Seq::new(hits.len(), |i: int| (hits[i].0@, hits[i].1))
}

/// No document stands before one that ranks higher.
pub open spec fn descending<K: Rank>(hits: Seq<(Seq<char>, K)>) -> bool {
    forall|i: int, j: int|
        0 <= i < j < hits.len() ==> (#[trigger] hits[j]).1.not_above((#[trigger] hits[i]).1)
}

/// Every document has a rank that takes part in the order.
pub open spec fn all_rank<K: Rank>(hits: Seq<(Seq<char>, K)>) -> bool {
    forall|i: int| 0 <= i < hits.len() ==> (#[trigger] hits[i]).1.ranks()
}

/// Where a document of the rank `rank` goes into `ranked`, looking from the
/// place `from` on: before the first document that ranks no higher.
pub open spec fn rank_position<K: Rank>(ranked: Seq<(Seq<char>, K)>, rank: K, from: int) -> int
    decreases ranked.len() - from,
{
    if 0 <= from < ranked.len() && !ranked[from].1.not_above(rank) {
        rank_position(ranked, rank, from + 1)
    } else {
        from
    }
}

/// The documents in the order of their ranks, the highest first; documents
/// of the same rank in the order in which they stand in `hits`.
pub open spec fn ranked<K: Rank>(hits: Seq<(Seq<char>, K)>) -> Seq<(Seq<char>, K)>
    decreases hits.len(),
{
    if hits.len() == 0 {
        hits
    } else {
        let rest = ranked(hits.drop_first());
        rest.insert(rank_position(rest, hits.first().1, 0), hits.first())
    }
}

/// The place that [`rank_position`] finds lies in the sequence or at its
/// end, behind documents of higher rank only, and before a document that
/// ranks no higher.
pub proof fn lemma_rank_position<K: Rank>(ranked: Seq<(Seq<char>, K)>, rank: K, from: int)
    requires
        0 <= from <= ranked.len(),
    ensures
        from <= rank_position(ranked, rank, from) <= ranked.len(),
        forall|i: int|
            from <= i < rank_position(ranked, rank, from) ==> !(#[trigger] ranked[i]).1.not_above(
                rank,
            ),
        rank_position(ranked, rank, from) < ranked.len() ==> ranked[rank_position(
            ranked,
            rank,
            from,
        )].1.not_above(rank),
    decreases ranked.len() - from,
{
    if from < ranked.len() && !ranked[from].1.not_above(rank) {
        lemma_rank_position(ranked, rank, from + 1);
    }
}

/// Ranking keeps every document, as often as it stands in `hits`, and
/// leaves no document before one that ranks higher.
pub proof fn lemma_ranked<K: Rank>(hits: Seq<(Seq<char>, K)>)
    requires
        all_rank(hits),
    ensures
        ranked(hits).len() == hits.len(),
        ranked(hits).to_multiset() == hits.to_multiset(),
        all_rank(ranked(hits)),
        descending(ranked(hits)),
    decreases hits.len(),
{
    if hits.len() > 0 {
        let first = hits.first();
        let tail = hits.drop_first();
        let rest = ranked(tail);
        let k = rank_position(rest, first.1, 0);
        let now = ranked(hits);
        assert(all_rank(tail)) by {
            assert forall|i: int| 0 <= i < tail.len() implies (#[trigger] tail[i]).1.ranks() by {
                assert(tail[i] == hits[i + 1]);
            }
        }
        lemma_ranked(tail);
        lemma_rank_position(rest, first.1, 0);
        assert(hits.to_multiset() == now.to_multiset()) by {
            assert(tail.insert(0, first) =~= hits);
            to_multiset_insert(tail, 0, first);
            to_multiset_insert(rest, k, first);
        }
        assert forall|i: int| 0 <= i < now.len() implies (#[trigger] now[i]).1.ranks() by {
            assert(hits[0].1.ranks());
            if i < k {
                assert(now[i] == rest[i]);
            } else if i > k {
                assert(now[i] == rest[i - 1]);
            }
        }
        assert forall|i: int, j: int| 0 <= i < j < now.len() implies (#[trigger] now[j]).1.not_above(
            (#[trigger] now[i]).1,
        ) by {
            if j < k {
                assert(now[i] == rest[i] && now[j] == rest[j]);
            } else if j == k {
                assert(now[i] == rest[i]);
                assert(!rest[i].1.not_above(first.1));
                K::lemma_total(rest[i].1, first.1);
            } else if i == k {
                assert(now[j] == rest[j - 1]);
                assert(rest[k].1.not_above(first.1));
                if j - 1 > k {
                    assert(rest[j - 1].1.not_above(rest[k].1));
                    assert(rest[k].1.ranks());
                    K::lemma_transitive(rest[j - 1].1, rest[k].1, first.1);
                }
            } else if i < k {
                assert(now[i] == rest[i] && now[j] == rest[j - 1]);
            } else {
                assert(now[i] == rest[i - 1] && now[j] == rest[j - 1]);
            }
        }
    }
}

/// Orders documents by their ranks, the highest first. Documents of the
/// same rank keep their order.
pub fn rank<K: Rank>(hits: Vec<(String, K)>) -> (ordered: Vec<(String, K)>)
    ensures
        hits_view(ordered@) == ranked(hits_view(hits@)),
        all_rank(hits_view(hits@)) ==> hits_view(ordered@).to_multiset() == hits_view(
            hits@,
        ).to_multiset() && descending(hits_view(ordered@)),
{
    let ghost all = hits_view(hits@);
    let mut rest = hits;
    let mut ordered: Vec<(String, K)> = Vec::new();
    proof {
        assert(all.skip(all.len() as int) =~= Seq::<(Seq<char>, K)>::empty());
        assert(hits_view(ordered@) =~= ranked(all.skip(all.len() as int)));
        assert(hits_view(rest@) =~= all.take(all.len() as int));
    }
    while rest.len() > 0
        invariant
            rest@.len() <= all.len(),
            hits_view(rest@) == all.take(rest@.len() as int),
            hits_view(ordered@) == ranked(all.skip(rest@.len() as int)),
        decreases rest.len(),
    {
        let ghost before = hits_view(ordered@);
        let ghost left = rest@.len() - 1;
        proof {
            assert(hits_view(rest@)[left] == all[left]);
        }
        let hit = rest.pop().unwrap();
        let ghost item = (hit.0@, hit.1);
        proof {
            assert(hits_view(rest@) =~= all.take(left));
            assert(all.skip(left).drop_first() =~= all.skip(left + 1));
            assert(all.skip(left).first() == item);
        }
        let mut k: usize = 0;
        while k < ordered.len() && ordered[k].1.above(&hit.1)
            invariant
                k <= ordered.len(),
                before == hits_view(ordered@),
                item == (hit.0@, hit.1),
                rank_position(before, item.1, 0) == rank_position(before, item.1, k as int),
            decreases ordered.len() - k,
        {
            k = k + 1;
        }
        ordered.insert(k, hit);
        proof {
            assert(hits_view(ordered@) =~= before.insert(k as int, item));
        }
    }
    proof {
        assert(all.skip(0) =~= all);
        if all_rank(all) {
            lemma_ranked(all);
        }
    }
    ordered
}

} // verus!
