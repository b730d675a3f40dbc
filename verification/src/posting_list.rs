//! Posting lists: for one term, the documents that hold it and how often.
//!
//! A weight is kept exactly, as a pair of integers: the number of times the
//! term occurs in the document, and the square of the number it is divided
//! by. The weight of a posting is `term_frequency / sqrt(squared_norm)`.

use vstd::prelude::*;

verus! {

/// Identifies a document of the corpus.
pub type DocId = usize;

/// A count of documents or of occurrences.
pub type Frequency = usize;

/// One document in which a term occurs, with the number of its occurrences.
#[derive(Clone, Copy, Debug, PartialEq, Eq, Structural)]
pub struct Posting {
    pub doc_id: DocId,
    pub term_frequency: Frequency,
}

/// The postings are in order of document, and no document occurs twice.
pub open spec fn ascending(postings: Seq<Posting>) -> bool {
    forall|i: int, j: int|
        0 <= i < j < postings.len() ==> postings[i].doc_id < postings[j].doc_id
}

/// Some posting is for `doc_id`.
pub open spec fn holds(postings: Seq<Posting>, doc_id: DocId) -> bool {
    exists|i: int| 0 <= i < postings.len() && postings[i].doc_id == doc_id
}

/// Where the posting for `doc_id` stands, if there is one.
pub open spec fn position_of(postings: Seq<Posting>, doc_id: DocId) -> int {
    choose|i: int| 0 <= i < postings.len() && postings[i].doc_id == doc_id
}

/// The postings as a map from each document to the occurrences in it.
pub open spec fn frequencies(postings: Seq<Posting>) -> Map<DocId, nat> {
    Map::new(
        |d: DocId| holds(postings, d),
        |d: DocId| postings[position_of(postings, d)].term_frequency as nat,
    )
}

/// The occurrences in all documents together.
pub open spec fn total_frequency(postings: Seq<Posting>) -> nat
    decreases postings.len(),
{
    if postings.len() == 0 {
        0
    } else {
        total_frequency(postings.drop_last()) + postings.last().term_frequency as nat
    }
}

/// The sum over all documents of the square of the occurrences.
pub open spec fn sum_of_squares(postings: Seq<Posting>) -> nat
    decreases postings.len(),
{
    if postings.len() == 0 {
        0
    } else {
        sum_of_squares(postings.drop_last()) + (postings.last().term_frequency
            * postings.last().term_frequency) as nat
    }
}

/// In an ascending list the posting at `i` is the one found for its document.
pub proof fn lemma_frequencies_at(postings: Seq<Posting>, i: int)
    requires
        ascending(postings),
        0 <= i < postings.len(),
    ensures
        holds(postings, postings[i].doc_id),
        position_of(postings, postings[i].doc_id) == i,
        frequencies(postings).dom().contains(postings[i].doc_id),
        frequencies(postings)[postings[i].doc_id] == postings[i].term_frequency,
{
    let d = postings[i].doc_id;
    assert(holds(postings, d));
    let j = position_of(postings, d);
    assert(0 <= j < postings.len() && postings[j].doc_id == d);
    if j < i {
        assert(postings[j].doc_id < postings[i].doc_id);
    }
    if i < j {
        assert(postings[i].doc_id < postings[j].doc_id);
    }
}

/// Replacing the posting of a document changes the map at that document only.
pub proof fn lemma_frequencies_update(postings: Seq<Posting>, k: int, posting: Posting)
    requires
        ascending(postings),
        0 <= k < postings.len(),
        posting.doc_id == postings[k].doc_id,
    ensures
        ascending(postings.update(k, posting)),
        frequencies(postings.update(k, posting)) == frequencies(postings).insert(
            posting.doc_id,
            posting.term_frequency as nat,
        ),
{
    let after = postings.update(k, posting);
    assert(ascending(after)) by {
        assert forall|i: int, j: int| 0 <= i < j < after.len() implies after[i].doc_id
            < after[j].doc_id by {
            assert(after[i].doc_id == postings[i].doc_id);
            assert(after[j].doc_id == postings[j].doc_id);
        }
    }
    let expected = frequencies(postings).insert(posting.doc_id, posting.term_frequency as nat);
    assert forall|d: DocId| frequencies(after).dom().contains(d) implies #[trigger]
        expected.dom().contains(d) && frequencies(after)[d] == expected[d] by {
        let i = position_of(after, d);
        assert(0 <= i < after.len() && after[i].doc_id == d);
        lemma_frequencies_at(after, i);
        if i != k {
            assert(postings[i].doc_id == d);
            lemma_frequencies_at(postings, i);
        }
    }
    assert forall|d: DocId| expected.dom().contains(d) implies #[trigger] frequencies(
        after,
    ).dom().contains(d) by {
        if d == posting.doc_id {
            lemma_frequencies_at(after, k);
        } else {
            let i = position_of(postings, d);
            assert(0 <= i < postings.len() && postings[i].doc_id == d);
            assert(after[i].doc_id == d);
        }
    }
    assert(frequencies(after) =~= expected);
}

/// Putting the posting of a new document in its place adds it to the map.
pub proof fn lemma_frequencies_insert(postings: Seq<Posting>, k: int, posting: Posting)
    requires
        ascending(postings),
        0 <= k <= postings.len(),
        forall|i: int| 0 <= i < k ==> postings[i].doc_id < posting.doc_id,
        forall|i: int| k <= i < postings.len() ==> postings[i].doc_id > posting.doc_id,
    ensures
        !holds(postings, posting.doc_id),
        ascending(postings.insert(k, posting)),
        frequencies(postings.insert(k, posting)) == frequencies(postings).insert(
            posting.doc_id,
            posting.term_frequency as nat,
        ),
{
    let after = postings.insert(k, posting);
    assert(after.len() == postings.len() + 1);
    assert(after[k] == posting);
    assert(forall|i: int| 0 <= i < k ==> after[i] == postings[i]);
    assert(forall|i: int| k < i < after.len() ==> after[i] == postings[i - 1]);
    assert(ascending(after)) by {
        assert forall|i: int, j: int| 0 <= i < j < after.len() implies after[i].doc_id
            < after[j].doc_id by {
            if i < k && j > k {
                assert(postings[i].doc_id < posting.doc_id);
                assert(postings[j - 1].doc_id > posting.doc_id);
            }
        }
    }
    if holds(postings, posting.doc_id) {
        let i = position_of(postings, posting.doc_id);
        assert(postings[i].doc_id == posting.doc_id);
        assert(false);
    }
    let expected = frequencies(postings).insert(posting.doc_id, posting.term_frequency as nat);
    assert forall|d: DocId| frequencies(after).dom().contains(d) implies #[trigger]
        expected.dom().contains(d) && frequencies(after)[d] == expected[d] by {
        let i = position_of(after, d);
        assert(0 <= i < after.len() && after[i].doc_id == d);
        lemma_frequencies_at(after, i);
        if i < k {
            assert(postings[i].doc_id == d);
            lemma_frequencies_at(postings, i);
        } else if i > k {
            assert(postings[i - 1].doc_id == d);
            lemma_frequencies_at(postings, i - 1);
        }
    }
    assert forall|d: DocId| expected.dom().contains(d) implies #[trigger] frequencies(
        after,
    ).dom().contains(d) by {
        if d == posting.doc_id {
            lemma_frequencies_at(after, k);
        } else {
            let i = position_of(postings, d);
            assert(0 <= i < postings.len() && postings[i].doc_id == d);
            if i < k {
                assert(after[i].doc_id == d);
            } else {
                assert(after[i + 1].doc_id == d);
            }
        }
    }
    assert(frequencies(after) =~= expected);
}

/// The total counts every posting.
pub proof fn lemma_total_covers(postings: Seq<Posting>, k: int)
    requires
        0 <= k < postings.len(),
    ensures
        postings[k].term_frequency <= total_frequency(postings),
    decreases postings.len(),
{
    if k < postings.len() - 1 {
        lemma_total_covers(postings.drop_last(), k);
    }
}

/// Where every posting counts an occurrence, the total is at least the
/// number of postings.
pub proof fn lemma_total_at_least_len(postings: Seq<Posting>)
    requires
        forall|i: int| 0 <= i < postings.len() ==> postings[i].term_frequency >= 1,
    ensures
        postings.len() <= total_frequency(postings),
    decreases postings.len(),
{
    if postings.len() > 0 {
        lemma_total_at_least_len(postings.drop_last());
    }
}

/// The total of a prefix is at most the total of the whole.
pub proof fn lemma_total_prefix(postings: Seq<Posting>, n: int)
    requires
        0 <= n <= postings.len(),
    ensures
        total_frequency(postings.take(n)) <= total_frequency(postings),
    decreases postings.len(),
{
    if n == postings.len() {
        assert(postings.take(n) =~= postings);
    } else {
        assert(postings.take(n) =~= postings.drop_last().take(n));
        lemma_total_prefix(postings.drop_last(), n);
    }
}

/// What replacing one posting does to the total.
pub proof fn lemma_total_update(postings: Seq<Posting>, k: int, posting: Posting)
    requires
        0 <= k < postings.len(),
    ensures
        total_frequency(postings.update(k, posting)) + postings[k].term_frequency
            == total_frequency(postings) + posting.term_frequency,
    decreases postings.len(),
{
    let after = postings.update(k, posting);
    if k == postings.len() - 1 {
        assert(after.drop_last() =~= postings.drop_last());
    } else {
        assert(after.drop_last() =~= postings.drop_last().update(k, posting));
        lemma_total_update(postings.drop_last(), k, posting);
    }
}

/// What one more posting does to the total, wherever it is put.
pub proof fn lemma_total_insert(postings: Seq<Posting>, k: int, posting: Posting)
    requires
        0 <= k <= postings.len(),
    ensures
        total_frequency(postings.insert(k, posting)) == total_frequency(postings)
            + posting.term_frequency,
    decreases postings.len(),
{
    let after = postings.insert(k, posting);
    if k == postings.len() {
        assert(after.drop_last() =~= postings);
    } else {
        assert(after.drop_last() =~= postings.drop_last().insert(k, posting));
        assert(after.last() == postings.last());
        lemma_total_insert(postings.drop_last(), k, posting);
    }
}

/// The sum of the squares is at most the square of the sum.
pub proof fn lemma_squares_bounded(postings: Seq<Posting>)
    ensures
        sum_of_squares(postings) <= total_frequency(postings) * total_frequency(postings),
    decreases postings.len(),
{
    if postings.len() > 0 {
        lemma_squares_bounded(postings.drop_last());
        let rest = total_frequency(postings.drop_last()) as int;
        let squares = sum_of_squares(postings.drop_last()) as int;
        let last = postings.last().term_frequency as int;
        assert(squares <= rest * rest ==> squares + last * last <= (rest + last) * (rest + last))
            by (nonlinear_arith)
            requires
                0 <= rest,
                0 <= last,
        ;
    }
}

/// Where no occurrence is counted there is no posting.
pub proof fn lemma_squares_positive(postings: Seq<Posting>)
    requires
        postings.len() > 0,
        forall|i: int| 0 <= i < postings.len() ==> postings[i].term_frequency >= 1,
    ensures
        sum_of_squares(postings) > 0,
{
    let last = postings.last().term_frequency as int;
    assert(last * last >= 1) by (nonlinear_arith)
        requires
            last >= 1,
    ;
}

/// The numbers are in order, and none occurs twice.
pub open spec fn strictly_ascending(ids: Seq<DocId>) -> bool {
    forall|i: int, j: int| 0 <= i < j < ids.len() ==> ids[i] < ids[j]
}

/// The documents of the postings, in their order.
pub open spec fn documents_of(postings: Seq<Posting>) -> Seq<DocId> {
    Seq::new(postings.len(), |i: int| postings[i].doc_id)
}

/// Two ascending sequences with the same numbers are one sequence.
pub proof fn lemma_ascending_determined(x: Seq<DocId>, y: Seq<DocId>)
    requires
        strictly_ascending(x),
        strictly_ascending(y),
        forall|d: DocId| x.contains(d) <==> y.contains(d),
    ensures
        x == y,
    decreases x.len(),
{
    if x.len() == 0 {
        if y.len() > 0 {
            assert(y.contains(y[0]));
            assert(x.contains(y[0]));
        }
        assert(x =~= y);
    } else {
        assert(x.contains(x.last()));
        assert(y.contains(x.last()));
        let j = choose|j: int| 0 <= j < y.len() && y[j] == x.last();
        assert(y.contains(y.last()));
        assert(x.contains(y.last()));
        let i = choose|i: int| 0 <= i < x.len() && x[i] == y.last();
        assert(x.last() == y.last()) by {
            if j < y.len() - 1 {
                assert(y[j] < y.last());
            }
            if i < x.len() - 1 {
                assert(x[i] < x.last());
            }
        }
        let xs = x.drop_last();
        let ys = y.drop_last();
        assert forall|d: DocId| xs.contains(d) <==> ys.contains(d) by {
            if xs.contains(d) {
                let a = choose|a: int| 0 <= a < xs.len() && xs[a] == d;
                assert(x[a] < x.last());
                assert(x.contains(d));
                let b = choose|b: int| 0 <= b < y.len() && y[b] == d;
                assert(ys[b] == d);
            }
            if ys.contains(d) {
                let b = choose|b: int| 0 <= b < ys.len() && ys[b] == d;
                assert(y[b] < y.last());
                assert(y.contains(d));
                let a = choose|a: int| 0 <= a < x.len() && x[a] == d;
                assert(xs[a] == d);
            }
        }
        lemma_ascending_determined(xs, ys);
        assert(x =~= xs.push(x.last()));
        assert(y =~= ys.push(y.last()));
    }
}

/// Ascending postings are determined by the map that they stand for.
pub proof fn lemma_postings_determined(x: Seq<Posting>, y: Seq<Posting>)
    requires
        ascending(x),
        ascending(y),
        frequencies(x) == frequencies(y),
    ensures
        x == y,
{
    let xs = documents_of(x);
    let ys = documents_of(y);
    assert forall|d: DocId| xs.contains(d) <==> ys.contains(d) by {
        if xs.contains(d) {
            let a = choose|a: int| 0 <= a < xs.len() && xs[a] == d;
            lemma_frequencies_at(x, a);
            assert(frequencies(y).dom().contains(d));
            let b = position_of(y, d);
            assert(ys[b] == d);
        }
        if ys.contains(d) {
            let b = choose|b: int| 0 <= b < ys.len() && ys[b] == d;
            lemma_frequencies_at(y, b);
            assert(frequencies(x).dom().contains(d));
            let a = position_of(x, d);
            assert(xs[a] == d);
        }
    }
    assert(strictly_ascending(xs)) by {
        assert forall|i: int, j: int| 0 <= i < j < xs.len() implies xs[i] < xs[j] by {
            assert(x[i].doc_id < x[j].doc_id);
        }
    }
    assert(strictly_ascending(ys)) by {
        assert forall|i: int, j: int| 0 <= i < j < ys.len() implies ys[i] < ys[j] by {
            assert(y[i].doc_id < y[j].doc_id);
        }
    }
    lemma_ascending_determined(xs, ys);
    assert forall|i: int| 0 <= i < x.len() implies x[i] == y[i] by {
        assert(xs[i] == ys[i]);
        lemma_frequencies_at(x, i);
        lemma_frequencies_at(y, i);
    }
    assert(x.len() == xs.len() && y.len() == ys.len());
    assert(x =~= y);
}

/// Ascending postings are for as many documents as there are postings.
pub proof fn lemma_frequencies_domain(postings: Seq<Posting>)
    requires
        ascending(postings),
    ensures
        frequencies(postings).dom().finite(),
        frequencies(postings).dom().len() == postings.len(),
    decreases postings.len(),
{
    if postings.len() == 0 {
        assert(frequencies(postings).dom() =~= Set::empty());
    } else {
        let rest = postings.drop_last();
        let last = postings.last().doc_id;
        lemma_frequencies_domain(rest);
        assert(!frequencies(rest).dom().contains(last)) by {
            if holds(rest, last) {
                let i = position_of(rest, last);
                assert(postings[i].doc_id < postings[postings.len() - 1].doc_id);
            }
        }
        assert forall|d: DocId|
            frequencies(postings).dom().contains(d) <==> frequencies(rest).dom().insert(
                last,
            ).contains(d) by {
            if holds(postings, d) {
                let i = position_of(postings, d);
                if i < postings.len() - 1 {
                    assert(rest[i].doc_id == d);
                }
            }
            if holds(rest, d) {
                let i = position_of(rest, d);
                assert(postings[i].doc_id == d);
            }
            if d == last {
                assert(postings[postings.len() - 1].doc_id == d);
            }
        }
        assert(frequencies(postings).dom() =~= frequencies(rest).dom().insert(last));
    }
}

/// The documents that hold one term, in order of document, each with the
/// number of occurrences of the term in it.
pub struct PostingList {
    /// How many documents hold the term.
    pub document_frequency: Frequency,
    /// For each of those documents, how often the term occurs in it.
    pub dimension_map: Vec<Posting>,
    /// The square of what the occurrences are divided by to give weights:
    /// 1 while the weights are the plain counts.
    pub squared_norm: u128,
}

impl View for PostingList {
    type V = Map<DocId, nat>;

    open spec fn view(&self) -> Map<DocId, nat> {
        frequencies(self.dimension_map@)
    }
}

impl PostingList {
    /// The documents are in order, each counted once, and the counts fit.
    pub open spec fn wf(&self) -> bool {
        &&& ascending(self.dimension_map@)
        &&& forall|i: int|
            0 <= i < self.dimension_map@.len() ==> self.dimension_map@[i].term_frequency >= 1
        &&& self.document_frequency == self.dimension_map@.len()
        &&& total_frequency(self.dimension_map@) <= usize::MAX
    }

    /// The weights are the plain counts.
    pub open spec fn is_raw(&self) -> bool {
        self.squared_norm == 1
    }

    /// The weights have length 1 as a vector: their squares sum to 1.
    pub open spec fn is_normalized(&self) -> bool {
        self.squared_norm == sum_of_squares(self.dimension_map@)
    }

    /// How often the term occurs in `doc_id`.
    pub open spec fn frequency(&self, doc_id: DocId) -> nat {
        if self@.dom().contains(doc_id) {
            self@[doc_id]
        } else {
            0
        }
    }

    /// How often the term occurs in the corpus.
    pub open spec fn occurrences(&self) -> nat {
        total_frequency(self.dimension_map@)
    }

    /// The document frequency is the number of entries of the dimension map,
    /// and the number of documents that they are for: a document is counted
    /// once, however often it holds the term.
    pub proof fn lemma_document_frequency_counts_documents(&self)
        requires
            self.wf(),
        ensures
            self.document_frequency == self.dimension_map@.len(),
            self@.dom().finite(),
            self.document_frequency == self@.dom().len(),
            forall|d: DocId| self@.dom().contains(d) <==> self.frequency(d) > 0,
    {
        lemma_frequencies_domain(self.dimension_map@);
        assert forall|d: DocId| self@.dom().contains(d) implies self.frequency(d) > 0 by {
            let i = position_of(self.dimension_map@, d);
            lemma_frequencies_at(self.dimension_map@, i);
        }
    }

    /// Counts the occurrences of the term in the corpus.
    pub fn count_occurrences(&self) -> (n: Frequency)
        requires
            self.wf(),
        ensures
            n == self.occurrences(),
    {
        let mut n: Frequency = 0;
        let mut i: usize = 0;
        while i < self.dimension_map.len()
            invariant
                i <= self.dimension_map@.len(),
                n == total_frequency(self.dimension_map@.take(i as int)),
                total_frequency(self.dimension_map@) <= usize::MAX,
            decreases self.dimension_map@.len() - i,
        {
            proof {
                let next = self.dimension_map@.take(i + 1);
                assert(next.drop_last() =~= self.dimension_map@.take(i as int));
                lemma_total_prefix(self.dimension_map@, i + 1);
            }
            n = n + self.dimension_map[i].term_frequency;
            i += 1;
        }
        assert(self.dimension_map@.take(i as int) =~= self.dimension_map@);
        n
    }

    /// How often the term occurs in `doc_id`: 0 where it does not.
    pub fn term_frequency(&self, doc_id: DocId) -> (n: Frequency)
        requires
            self.wf(),
        ensures
            n == self.frequency(doc_id),
    {
        let mut low: usize = 0;
        let mut high: usize = self.dimension_map.len();
        while low < high
            invariant
                low <= high <= self.dimension_map@.len(),
                ascending(self.dimension_map@),
                forall|k: int| 0 <= k < low ==> self.dimension_map@[k].doc_id < doc_id,
                forall|k: int|
                    high <= k < self.dimension_map@.len() ==> self.dimension_map@[k].doc_id
                        > doc_id,
            decreases high - low,
        {
            let middle = low + (high - low) / 2;
            let found = self.dimension_map[middle];
            if found.doc_id == doc_id {
                proof {
                    lemma_frequencies_at(self.dimension_map@, middle as int);
                }
                return found.term_frequency;
            } else if found.doc_id < doc_id {
                proof {
                    assert forall|k: int| 0 <= k < middle + 1 implies self.dimension_map@[k].doc_id
                        < doc_id by {
                        if k < middle {
                            assert(self.dimension_map@[k].doc_id
                                < self.dimension_map@[middle as int].doc_id);
                        }
                    }
                }
                low = middle + 1;
            } else {
                proof {
                    assert forall|k: int|
                        middle <= k < self.dimension_map@.len() implies self.dimension_map@[k].doc_id
                        > doc_id by {
                        if k > middle {
                            assert(self.dimension_map@[middle as int].doc_id
                                < self.dimension_map@[k].doc_id);
                        }
                    }
                }
                high = middle;
            }
        }
        proof {
            if holds(self.dimension_map@, doc_id) {
                let k = position_of(self.dimension_map@, doc_id);
                assert(self.dimension_map@[k].doc_id == doc_id);
            }
        }
        0
    }

    /// The list of a term that no document holds.
    pub fn new() -> (list: Self)
        ensures
            list.wf(),
            list.is_raw(),
            list@ == Map::<DocId, nat>::empty(),
            list.document_frequency == 0,
            list.occurrences() == 0,
    {
        let list = PostingList { document_frequency: 0, dimension_map: Vec::new(), squared_norm: 1 };
        assert(list@ =~= Map::<DocId, nat>::empty());
        list
    }

    /// The list of a term seen for the first time, in `doc_id`.
    pub fn with_doc_id(doc_id: DocId) -> (list: Self)
        ensures
            list.wf(),
            list.is_raw(),
            list@ == Map::<DocId, nat>::empty().insert(doc_id, 1),
            list.document_frequency == 1,
            list.occurrences() == 1,
    {
        let mut list = PostingList::new();
        list.record_occurrence(doc_id);
        list
    }

    /// Counts one more occurrence of the term in `doc_id`. The document
    /// frequency grows only where the document did not hold the term yet.
    pub fn record_occurrence(&mut self, doc_id: DocId)
        requires
            old(self).wf(),
            old(self).is_raw(),
            old(self).occurrences() < usize::MAX,
        ensures
            final(self).wf(),
            final(self).is_raw(),
            final(self)@ == old(self)@.insert(doc_id, old(self).frequency(doc_id) + 1),
            final(self).occurrences() == old(self).occurrences() + 1,
            final(self).document_frequency == old(self).document_frequency + (if old(
                self,
            )@.dom().contains(doc_id) {
                0int
            } else {
                1int
            }),
    {
        let ghost before = self.dimension_map@;
        let mut i: usize = self.dimension_map.len();
        while i > 0 && self.dimension_map[i - 1].doc_id > doc_id
            invariant
                i <= self.dimension_map@.len(),
                self.dimension_map@ == before,
                forall|k: int| i <= k < before.len() ==> before[k].doc_id > doc_id,
            decreases i,
        {
            i -= 1;
        }
        if i > 0 && self.dimension_map[i - 1].doc_id == doc_id {
            let count: Frequency = self.dimension_map[i - 1].term_frequency;
            proof {
                lemma_total_covers(before, i - 1);
            }
            let posting = Posting { doc_id, term_frequency: count + 1 };
            proof {
                lemma_frequencies_at(before, i - 1);
                lemma_frequencies_update(before, i - 1, posting);
                lemma_total_update(before, i - 1, posting);
            }
            self.dimension_map.set(i - 1, posting);
        } else {
            let posting = Posting { doc_id, term_frequency: 1 };
            proof {
                assert forall|k: int| 0 <= k < i implies before[k].doc_id < doc_id by {
                    if k < i - 1 {
                        assert(before[k].doc_id < before[i - 1].doc_id);
                    }
                }
                lemma_total_at_least_len(before);
                lemma_frequencies_insert(before, i as int, posting);
                lemma_total_insert(before, i as int, posting);
            }
            self.dimension_map.insert(i, posting);
            self.document_frequency = self.document_frequency + 1;
        }
    }

    /// Fixes the norm of the weights at 1: from here on the occurrences are
    /// divided by the root of the sum of their squares.
    pub fn normalize(&mut self)
        requires
            old(self).wf(),
        ensures
            final(self).wf(),
            final(self).is_normalized(),
            final(self).dimension_map == old(self).dimension_map,
            final(self).document_frequency == old(self).document_frequency,
    {
        let mut sum: u128 = 0;
        let mut i: usize = 0;
        while i < self.dimension_map.len()
            invariant
                i <= self.dimension_map@.len(),
                sum == sum_of_squares(self.dimension_map@.take(i as int)),
                total_frequency(self.dimension_map@) <= usize::MAX,
            decreases self.dimension_map@.len() - i,
        {
            let count: u128 = self.dimension_map[i].term_frequency as u128;
            proof {
                let next = self.dimension_map@.take(i + 1);
                assert(next.drop_last() =~= self.dimension_map@.take(i as int));
                lemma_squares_bounded(next);
                lemma_total_prefix(self.dimension_map@, i + 1);
                let total = total_frequency(next) as int;
                assert(total * total <= 0xffff_ffff_ffff_ffff * 0xffff_ffff_ffff_ffff)
                    by (nonlinear_arith)
                    requires
                        0 <= total <= 0xffff_ffff_ffff_ffff,
                ;
            }
            sum = sum + count * count;
            i += 1;
        }
        assert(self.dimension_map@.take(i as int) =~= self.dimension_map@);
        self.squared_norm = sum;
    }
}

} // verus!
