//! Ranking: the best documents of a query, best first.
//!
//! A score is held as an unsigned integer that grows with the relevance. Of
//! two documents with one score the one with the smaller number comes first.

use crate::posting_list::DocId;
use vstd::multiset::Multiset;
use vstd::prelude::*;
use vstd::relations::{sorted_by, total_ordering};
use vstd::seq_lib::{lemma_sorted_unique, to_multiset_build, to_multiset_insert};

verus! {

/// How many documents a ranking holds at most.
pub const MAX_RESULTS: usize = 10;

/// A document with its score for one query.
#[derive(Clone, Copy, Debug, PartialEq, Eq, Structural)]
pub struct ScoredDocument {
    pub doc_id: DocId,
    pub score: u64,
}

/// `a` comes no later than `b`: it has the higher score, or the same score
/// and no greater a number.
pub open spec fn ranks_before(a: ScoredDocument, b: ScoredDocument) -> bool {
    a.score > b.score || (a.score == b.score && a.doc_id <= b.doc_id)
}

/// The order of a ranking.
pub open spec fn relevance_order() -> spec_fn(ScoredDocument, ScoredDocument) -> bool {
    |a: ScoredDocument, b: ScoredDocument| ranks_before(a, b)
}

/// The documents with a score other than 0, in their order.
pub open spec fn relevant(candidates: Seq<ScoredDocument>) -> Seq<ScoredDocument> {
    candidates.filter(|c: ScoredDocument| c.score != 0)
}

/// The relevant documents, best first.
pub open spec fn ranked(candidates: Seq<ScoredDocument>) -> Seq<ScoredDocument> {
    relevant(candidates).sort_by(relevance_order())
}

/// How many of `n` ranked documents are handed out.
pub open spec fn results(n: nat) -> int {
    if n <= MAX_RESULTS {
        n as int
    } else {
        MAX_RESULTS as int
    }
}

/// The ranking of the candidates: the best of the relevant ones, best first,
/// and at most `MAX_RESULTS` of them.
pub open spec fn top_ranked(candidates: Seq<ScoredDocument>) -> Seq<ScoredDocument> {
    ranked(candidates).take(results(ranked(candidates).len()))
}

/// Any two documents are ordered, and only equal ones both ways.
pub proof fn lemma_relevance_order_total()
    ensures
        total_ordering(relevance_order()),
{
    let order = relevance_order();
    assert forall|a: ScoredDocument, b: ScoredDocument| #[trigger]
        order(a, b) && #[trigger] order(b, a) implies a == b by {}
}

/// One more candidate is relevant exactly if its score is not 0.
pub proof fn lemma_relevant_push(candidates: Seq<ScoredDocument>, candidate: ScoredDocument)
    ensures
        relevant(candidates.push(candidate)) == if candidate.score != 0 {
            relevant(candidates).push(candidate)
        } else {
            relevant(candidates)
        },
{
    candidates.lemma_filter_push(candidate, |c: ScoredDocument| c.score != 0);
}

/// A document put where all before it come no later, and all after it no
/// earlier, leaves the ranking in order.
pub proof fn lemma_insert_keeps_order(
    sorted: Seq<ScoredDocument>,
    candidate: ScoredDocument,
    place: int,
)
    requires
        sorted_by(sorted, relevance_order()),
        0 <= place <= sorted.len(),
        forall|i: int| 0 <= i < place ==> ranks_before(#[trigger] sorted[i], candidate),
        forall|i: int| place <= i < sorted.len() ==> ranks_before(candidate, #[trigger] sorted[i]),
    ensures
        sorted_by(sorted.insert(place, candidate), relevance_order()),
{
    let order = relevance_order();
    let after = sorted.insert(place, candidate);
    assert forall|i: int, j: int| 0 <= i < j < after.len() implies #[trigger] order(
        after[i],
        after[j],
    ) by {
        if j < place {
            assert(order(sorted[i], sorted[j]));
        } else if j == place {
            assert(ranks_before(sorted[i], candidate));
        } else if i < place {
            assert(order(sorted[i], sorted[j - 1]));
        } else if i == place {
            assert(ranks_before(candidate, sorted[j - 1]));
        } else {
            assert(order(sorted[i - 1], sorted[j - 1]));
        }
    }
}

/// In a ranking there is a place for every document, and one not before
/// `from` where all documents before `from` come no later than it.
pub proof fn lemma_insertion_place(
    sorted: Seq<ScoredDocument>,
    candidate: ScoredDocument,
    from: int,
) -> (place: int)
    requires
        sorted_by(sorted, relevance_order()),
        0 <= from <= sorted.len(),
        forall|i: int| 0 <= i < from ==> ranks_before(#[trigger] sorted[i], candidate),
    ensures
        from <= place <= sorted.len(),
        sorted_by(sorted.insert(place, candidate), relevance_order()),
    decreases sorted.len() - from,
{
    let order = relevance_order();
    if from < sorted.len() && ranks_before(sorted[from], candidate) {
        lemma_insertion_place(sorted, candidate, from + 1)
    } else {
        assert forall|i: int| from <= i < sorted.len() implies ranks_before(
            candidate,
            #[trigger] sorted[i],
        ) by {
            if i > from {
                assert(order(sorted[from], sorted[i]));
            }
        }
        lemma_insert_keeps_order(sorted, candidate, from);
        from
    }
}

/// Whether `a` comes before `b` in a ranking, and not at the same place.
pub fn outranks(a: &ScoredDocument, b: &ScoredDocument) -> (before: bool)
    ensures
        before == !ranks_before(*b, *a),
{
    a.score > b.score || (a.score == b.score && a.doc_id < b.doc_id)
}

/// Ranks the candidates: leaves out those with score 0, and hands out the
/// best of the others, best first, at most `MAX_RESULTS` of them.
pub fn rank_documents(candidates: &Vec<ScoredDocument>) -> (top: Vec<ScoredDocument>)
    ensures
        top@ == top_ranked(candidates@),
{
    let ghost order = relevance_order();
    let mut top: Vec<ScoredDocument> = Vec::new();
    let ghost mut all: Seq<ScoredDocument> = Seq::empty();
    let mut i: usize = 0;
    proof {
        assert(candidates@.take(0) =~= Seq::empty());
        assert(relevant(Seq::empty()) =~= Seq::empty()) by {
            reveal(Seq::filter);
        }
        assert(top@ =~= all.take(results(all.len())));
    }
    while i < candidates.len()
        invariant
            i <= candidates@.len(),
            order == relevance_order(),
            sorted_by(all, order),
            all.to_multiset() == relevant(candidates@.take(i as int)).to_multiset(),
            top@ == all.take(results(all.len())),
        decreases candidates@.len() - i,
    {
        let candidate = candidates[i];
        proof {
            assert(candidates@.take(i + 1) =~= candidates@.take(i as int).push(candidate));
            lemma_relevant_push(candidates@.take(i as int), candidate);
            to_multiset_build(relevant(candidates@.take(i as int)), candidate);
        }
        if candidate.score != 0 {
            let ghost shown = top@;
            let mut place: usize = top.len();
            while place > 0 && outranks(&candidate, &top[place - 1])
                invariant
                    place <= top@.len(),
                    forall|k: int|
                        place <= k < top@.len() ==> ranks_before(candidate, #[trigger] top@[k]),
                decreases place,
            {
                place -= 1;
            }
            proof {
                assert forall|k: int| 0 <= k < place implies ranks_before(
                    #[trigger] all[k],
                    candidate,
                ) by {
                    assert(all[k] == top@[k]);
                    assert(all[place - 1] == top@[place - 1]);
                    if k < place - 1 {
                        assert(order(all[k], all[place - 1]));
                    }
                }
            }
            if place < MAX_RESULTS {
                proof {
                    assert forall|k: int| place <= k < all.len() implies ranks_before(
                        candidate,
                        #[trigger] all[k],
                    ) by {
                        if k < top@.len() {
                            assert(all[k] == top@[k]);
                        } else {
                            assert(all[place as int] == top@[place as int]);
                            assert(order(all[place as int], all[k]));
                        }
                    }
                    lemma_insert_keeps_order(all, candidate, place as int);
                    to_multiset_insert(all, place as int, candidate);
                }
                top.insert(place, candidate);
                if top.len() > MAX_RESULTS {
                    top.pop();
                }
                proof {
                    let grown = all.insert(place as int, candidate);
                    assert(top@ =~= grown.take(results(grown.len())));
                    all = grown;
                }
            } else {
                proof {
                    let beyond = lemma_insertion_place(all, candidate, MAX_RESULTS as int);
                    to_multiset_insert(all, beyond, candidate);
                    let grown = all.insert(beyond, candidate);
                    assert(top@ =~= grown.take(results(grown.len())));
                    all = grown;
                }
            }
        }
        i += 1;
    }
    proof {
        assert(candidates@.take(i as int) =~= candidates@);
        lemma_relevance_order_total();
        relevant(candidates@).lemma_sort_by_ensures(order);
        lemma_sorted_unique(all, ranked(candidates@), order);
    }
    top
}

/// A ranking holds at most `MAX_RESULTS` documents, all of them relevant
/// candidates, the better before the worse.
pub proof fn lemma_ranking_is_ordered(candidates: Seq<ScoredDocument>)
    ensures
        top_ranked(candidates).len() <= MAX_RESULTS,
        top_ranked(candidates).len() <= relevant(candidates).len(),
        sorted_by(top_ranked(candidates), relevance_order()),
        forall|i: int|
            0 <= i < top_ranked(candidates).len() ==> candidates.contains(
                #[trigger] top_ranked(candidates)[i],
            ) && top_ranked(candidates)[i].score != 0,
{
    broadcast use vstd::seq_lib::group_to_multiset_ensures;

    let order = relevance_order();
    let all = ranked(candidates);
    let top = top_ranked(candidates);
    lemma_relevance_order_total();
    relevant(candidates).lemma_sort_by_ensures(order);
    assert forall|i: int, j: int| 0 <= i < j < top.len() implies #[trigger] order(
        top[i],
        top[j],
    ) by {
        assert(order(all[i], all[j]));
    }
    assert(all.len() == all.to_multiset().len());
    assert(relevant(candidates).len() == relevant(candidates).to_multiset().len());
    assert forall|i: int| 0 <= i < top.len() implies candidates.contains(#[trigger] top[i])
        && top[i].score != 0 by {
        assert(all[i] == top[i]);
        assert(all.contains(all[i]));
        assert(relevant(candidates).contains(top[i]));
        candidates.lemma_filter_contains_rev(|c: ScoredDocument| c.score != 0, top[i]);
    }
}

/// Where there is no candidate the ranking is empty.
pub proof fn lemma_ranking_of_nothing()
    ensures
        top_ranked(Seq::empty()) == Seq::<ScoredDocument>::empty(),
{
    reveal(Seq::filter);
    lemma_ranking_is_ordered(Seq::empty());
    assert(relevant(Seq::empty()) =~= Seq::empty());
    assert(top_ranked(Seq::empty()) =~= Seq::<ScoredDocument>::empty());
}

/// Where no more than `MAX_RESULTS` candidates are relevant the ranking
/// holds them all, and nothing else.
pub proof fn lemma_short_ranking_is_complete(candidates: Seq<ScoredDocument>)
    requires
        relevant(candidates).len() <= MAX_RESULTS,
    ensures
        top_ranked(candidates).len() == relevant(candidates).len(),
        top_ranked(candidates).to_multiset() == relevant(candidates).to_multiset(),
{
    broadcast use vstd::seq_lib::group_to_multiset_ensures;

    lemma_relevance_order_total();
    relevant(candidates).lemma_sort_by_ensures(relevance_order());
    let all = ranked(candidates);
    assert(all.len() == all.to_multiset().len());
    assert(relevant(candidates).len() == relevant(candidates).to_multiset().len());
    assert(all.take(all.len() as int) =~= all);
}

/// The relevant ones among the candidates, as a multiset, are the relevant
/// ones of the multiset of the candidates.
pub proof fn lemma_relevant_multiset(candidates: Seq<ScoredDocument>)
    ensures
        relevant(candidates).to_multiset() == candidates.to_multiset().filter(
            |c: ScoredDocument| c.score != 0,
        ),
    decreases candidates.len(),
{
    broadcast use vstd::multiset::group_multiset_axioms;

    let keep = |c: ScoredDocument| c.score != 0;
    if candidates.len() == 0 {
        reveal(Seq::filter);
        assert(relevant(candidates) =~= Seq::empty());
        assert(candidates.to_multiset() =~= Multiset::empty()) by {
            candidates.to_multiset_ensures();
        }
        assert(relevant(candidates).to_multiset() =~= Multiset::empty()) by {
            relevant(candidates).to_multiset_ensures();
        }
        assert(candidates.to_multiset().filter(keep) =~= Multiset::empty());
    } else {
        let rest = candidates.drop_last();
        let last = candidates.last();
        lemma_relevant_multiset(rest);
        assert(candidates =~= rest.push(last));
        lemma_relevant_push(rest, last);
        to_multiset_build(rest, last);
        to_multiset_build(relevant(rest), last);
        assert(relevant(candidates).to_multiset() =~= candidates.to_multiset().filter(keep));
    }
}

/// The ranking does not depend on the order in which the candidates come.
pub proof fn lemma_ranking_ignores_order(a: Seq<ScoredDocument>, b: Seq<ScoredDocument>)
    requires
        a.to_multiset() == b.to_multiset(),
    ensures
        top_ranked(a) == top_ranked(b),
{
    let order = relevance_order();
    lemma_relevance_order_total();
    lemma_relevant_multiset(a);
    lemma_relevant_multiset(b);
    relevant(a).lemma_sort_by_ensures(order);
    relevant(b).lemma_sort_by_ensures(order);
    lemma_sorted_unique(ranked(a), ranked(b), order);
}

} // verus!
