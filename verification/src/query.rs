//! The query side: the terms of a query with their frequencies, and the
//! documents that hold any of them.

use crate::indexing::{IndexData, InvertedIndex};
use crate::posting_list::{
    ascending, holds, lemma_ascending_determined, lemma_frequencies_at, position_of,
    strictly_ascending, DocId, Frequency, PostingList,
};
use crate::retrieve_tokens::TokenizeError;
use crate::vocabulary::Vocabulary;
use crate::words::{
    distinct_terms, is_term, lemma_distinct_terms_occur, lemma_distinct_terms_push,
    lemma_occurrences_push, lemma_surviving_empty, lemma_surviving_push, lowercase_tokens,
    lowercased, occurrences, surviving, token_views,
};
use vstd::hash_set::StringHashSet;
use vstd::prelude::*;

verus! {

/// The terms of a query, each with the number of its occurrences in the
/// query.
pub struct QueryVector {
    /// The different terms, in the order in which they first occur.
    pub vocabulary: Vocabulary,
    /// For each term, under its number, how often it occurs.
    pub frequencies: Vec<Frequency>,
}

/// The terms of a query with the tokens `raw`: the tokens in lowercase,
/// without the excluded ones.
pub open spec fn query_terms(raw: Seq<Seq<char>>, excluded: Set<Seq<char>>) -> Seq<Seq<char>> {
    surviving(lowercased(raw), excluded)
}

impl QueryVector {
    /// Every term has its frequency, and occurs.
    pub open spec fn wf(&self) -> bool {
        &&& self.vocabulary.wf()
        &&& self.frequencies@.len() == self.vocabulary@.len()
        &&& forall|i: int| 0 <= i < self.frequencies@.len() ==> self.frequencies@[i] >= 1
    }

    /// This is the vector of a query with these terms.
    pub open spec fn counts(&self, terms: Seq<Seq<char>>) -> bool {
        &&& self.wf()
        &&& self.vocabulary@ == distinct_terms(terms)
        &&& forall|i: int|
            0 <= i < self.frequencies@.len() ==> self.frequencies@[i] == occurrences(
                terms,
                #[trigger] self.vocabulary@[i],
            )
    }

    /// How many different terms the query has.
    pub fn len(&self) -> (n: usize)
        requires
            self.wf(),
        ensures
            n == self.vocabulary@.len(),
            n == self.frequencies@.len(),
    {
        self.frequencies.len()
    }
}

/// The vector of a query with the tokens `tokens`, taken as they are: stop
/// words and punctuation tokens are left out, and what is left is counted.
pub fn count_terms(
    tokens: &Vec<String>,
    stop_words: &StringHashSet,
    punctuations: &StringHashSet,
) -> (query: QueryVector)
    ensures
        query.counts(surviving(token_views(tokens@), stop_words@.union(punctuations@))),
{
    let ghost excluded = stop_words@.union(punctuations@);
    let ghost all = token_views(tokens@);
    let mut vocabulary = Vocabulary::new();
    let mut frequencies: Vec<Frequency> = Vec::new();
    let mut i: usize = 0;
    proof {
        assert(all.take(0) =~= Seq::empty());
        lemma_surviving_empty(excluded);
    }
    while i < tokens.len()
        invariant
            i <= tokens@.len(),
            all == token_views(tokens@),
            excluded == stop_words@.union(punctuations@),
            vocabulary.wf(),
            frequencies@.len() == vocabulary@.len(),
            vocabulary@ == distinct_terms(surviving(all.take(i as int), excluded)),
            forall|k: int|
                0 <= k < frequencies@.len() ==> frequencies@[k] == occurrences(
                    surviving(all.take(i as int), excluded),
                    #[trigger] vocabulary@[k],
                ),
            forall|k: int| 0 <= k < frequencies@.len() ==> 1 <= #[trigger] frequencies@[k] <= i,
        decreases tokens@.len() - i,
    {
        let ghost seen = surviving(all.take(i as int), excluded);
        let ghost terms = vocabulary@;
        let ghost counted = frequencies@;
        let ghost text = all[i as int];
        proof {
            assert(all.take(i + 1) =~= all.take(i as int).push(text));
            lemma_surviving_push(all.take(i as int), text, excluded);
            lemma_distinct_terms_push(seen, text);
            lemma_distinct_terms_occur(seen, text);
            vocabulary.lemma_listed();
        }
        if is_term(tokens[i].as_str(), stop_words, punctuations) {
            let id = vocabulary.intern(tokens[i].clone());
            if id < frequencies.len() {
                let count: Frequency = frequencies[id];
                frequencies.set(id, count + 1);
            } else {
                frequencies.push(1);
            }
            proof {
                vocabulary.lemma_listed();
                assert forall|k: int| 0 <= k < frequencies@.len() implies frequencies@[k]
                    == occurrences(seen.push(text), #[trigger] vocabulary@[k]) by {
                    lemma_occurrences_push(seen, text, vocabulary@[k]);
                    if k != id {
                        assert(vocabulary@[k] != vocabulary@[id as int]);
                        assert(vocabulary@[k] == terms[k]);
                        assert(frequencies@[k] == counted[k]);
                    }
                }
            }
        }
        i += 1;
    }
    proof {
        assert(all.take(i as int) =~= all);
    }
    QueryVector { vocabulary, frequencies }
}

/// The vector of the query with the tokens `raw_tokens`: they are put in
/// lowercase, stop words and punctuation tokens are left out, and what is
/// left is counted.
pub fn get_query_map(
    raw_tokens: Vec<String>,
    stop_words: &StringHashSet,
    punctuations: &StringHashSet,
) -> (query: QueryVector)
    ensures
        query.counts(
            query_terms(token_views(raw_tokens@), stop_words@.union(punctuations@)),
        ),
{
    let tokens = lowercase_tokens(&raw_tokens);
    count_terms(&tokens, stop_words, punctuations)
}

/// The vector of a query from what the tokenizer made of its text: either
/// the tokens as the tokenizer gave them, which are counted as
/// `get_query_map` counts them, with the stop words and the punctuation
/// tokens of the index left out; or the tokenizer's description of its
/// failure, which is passed on.
pub fn parse_query(encoded: Result<Vec<String>, String>, data: &IndexData) -> (parsed: Result<
    QueryVector,
    TokenizeError,
>)
    ensures
        match encoded {
            Ok(raw) => parsed matches Ok(query) && query.counts(
                query_terms(token_views(raw@), data.excluded()),
            ),
            Err(message) => parsed matches Err(e) && e.message == message,
        },
{
    match encoded {
        Ok(raw) => Ok(get_query_map(raw, &data.stop_words, &data.punctuations)),
        Err(message) => Err(TokenizeError { message }),
    }
}

/// What one term of a query has to do with one document that holds it.
#[derive(Clone, Copy, Debug, PartialEq, Eq, Structural)]
pub struct TermMatch {
    /// How often the term occurs in the query.
    pub query_frequency: Frequency,
    /// In how many documents the term occurs.
    pub document_frequency: Frequency,
    /// How often the term occurs in the document.
    pub term_frequency: Frequency,
    /// The square of what `term_frequency` is divided by to give the weight
    /// of the term in the document.
    pub squared_norm: u128,
}

/// A document that holds terms of the query, with those terms in the order
/// of the query.
pub struct DocumentMatch {
    pub doc_id: DocId,
    pub terms: Vec<TermMatch>,
}

/// The match of a term that occurs `query_frequency` times in the query, and
/// has the posting list `list`, with the document `doc_id`.
pub open spec fn term_match(list: PostingList, query_frequency: Frequency, doc_id: DocId)
    -> TermMatch {
    TermMatch {
        query_frequency,
        document_frequency: list.document_frequency,
        term_frequency: list.dimension_map@[position_of(
            list.dimension_map@,
            doc_id,
        )].term_frequency,
        squared_norm: list.squared_norm,
    }
}

/// What the first `n` terms of the query have to do with `doc_id`: one match
/// for each of them that the document holds, in their order.
pub open spec fn term_matches(index: InvertedIndex, query: QueryVector, n: nat, doc_id: DocId)
    -> Seq<TermMatch>
    decreases n,
{
    if n == 0 {
        Seq::empty()
    } else {
        let earlier = term_matches(index, query, (n - 1) as nat, doc_id);
        let term = query.vocabulary@[n - 1];
        if index.vocabulary.has(term) && holds(index.list(term).dimension_map@, doc_id) {
            earlier.push(term_match(index.list(term), query.frequencies@[n - 1], doc_id))
        } else {
            earlier
        }
    }
}

/// The matches are in order of document, and no document occurs twice.
pub open spec fn matches_ascending(matches: Seq<DocumentMatch>) -> bool {
    forall|i: int, j: int| 0 <= i < j < matches.len() ==> matches[i].doc_id < matches[j].doc_id
}

/// Some match is for `doc_id`.
pub open spec fn has_match(matches: Seq<DocumentMatch>, doc_id: DocId) -> bool {
    exists|i: int| 0 <= i < matches.len() && matches[i].doc_id == doc_id
}

/// The terms matched with `doc_id`: none where no match is for it.
pub open spec fn terms_of(matches: Seq<DocumentMatch>, doc_id: DocId) -> Seq<TermMatch> {
    if has_match(matches, doc_id) {
        matches[choose|i: int| 0 <= i < matches.len() && matches[i].doc_id == doc_id].terms@
    } else {
        Seq::empty()
    }
}

/// Every match holds a term.
pub open spec fn matches_hold_terms(matches: Seq<DocumentMatch>) -> bool {
    forall|i: int| 0 <= i < matches.len() ==> (#[trigger] matches[i]).terms@.len() > 0
}

/// Among ascending matches the one at `i` is the one found for its document.
pub proof fn lemma_terms_of_at(matches: Seq<DocumentMatch>, i: int)
    requires
        matches_ascending(matches),
        0 <= i < matches.len(),
    ensures
        has_match(matches, matches[i].doc_id),
        terms_of(matches, matches[i].doc_id) == matches[i].terms@,
{
    let d = matches[i].doc_id;
    assert(has_match(matches, d));
    let j = choose|j: int| 0 <= j < matches.len() && matches[j].doc_id == d;
    if j < i {
        assert(matches[j].doc_id < matches[i].doc_id);
    }
    if i < j {
        assert(matches[i].doc_id < matches[j].doc_id);
    }
}

/// Replacing the match of a document changes the terms of that document
/// only.
pub proof fn lemma_terms_of_update(matches: Seq<DocumentMatch>, k: int, entry: DocumentMatch)
    requires
        matches_ascending(matches),
        0 <= k < matches.len(),
        entry.doc_id == matches[k].doc_id,
    ensures
        matches_ascending(matches.update(k, entry)),
        forall|d: DocId| #[trigger]
            terms_of(matches.update(k, entry), d) == if d == entry.doc_id {
                entry.terms@
            } else {
                terms_of(matches, d)
            },
{
    let after = matches.update(k, entry);
    assert(matches_ascending(after)) by {
        assert forall|i: int, j: int| 0 <= i < j < after.len() implies after[i].doc_id
            < after[j].doc_id by {
            assert(after[i].doc_id == matches[i].doc_id);
            assert(after[j].doc_id == matches[j].doc_id);
        }
    }
    assert forall|d: DocId| #[trigger]
        terms_of(after, d) == if d == entry.doc_id {
            entry.terms@
        } else {
            terms_of(matches, d)
        } by {
        if d == entry.doc_id {
            lemma_terms_of_at(after, k);
        } else if has_match(after, d) {
            let i = choose|i: int| 0 <= i < after.len() && after[i].doc_id == d;
            assert(matches[i].doc_id == d);
            lemma_terms_of_at(after, i);
            lemma_terms_of_at(matches, i);
        } else if has_match(matches, d) {
            let i = choose|i: int| 0 <= i < matches.len() && matches[i].doc_id == d;
            assert(after[i].doc_id == d);
        }
    }
}

/// Putting the match of a new document in its place changes the terms of
/// that document only.
pub proof fn lemma_terms_of_insert(matches: Seq<DocumentMatch>, k: int, entry: DocumentMatch)
    requires
        matches_ascending(matches),
        0 <= k <= matches.len(),
        forall|i: int| 0 <= i < k ==> matches[i].doc_id < entry.doc_id,
        forall|i: int| k <= i < matches.len() ==> matches[i].doc_id > entry.doc_id,
    ensures
        !has_match(matches, entry.doc_id),
        matches_ascending(matches.insert(k, entry)),
        forall|d: DocId| #[trigger]
            terms_of(matches.insert(k, entry), d) == if d == entry.doc_id {
                entry.terms@
            } else {
                terms_of(matches, d)
            },
{
    let after = matches.insert(k, entry);
    assert(after.len() == matches.len() + 1);
    assert(after[k] == entry);
    assert(forall|i: int| 0 <= i < k ==> after[i] == matches[i]);
    assert(forall|i: int| k < i < after.len() ==> after[i] == matches[i - 1]);
    assert(matches_ascending(after)) by {
        assert forall|i: int, j: int| 0 <= i < j < after.len() implies after[i].doc_id
            < after[j].doc_id by {
            if i < k && j > k {
                assert(matches[i].doc_id < entry.doc_id);
                assert(matches[j - 1].doc_id > entry.doc_id);
            }
        }
    }
    if has_match(matches, entry.doc_id) {
        let i = choose|i: int| 0 <= i < matches.len() && matches[i].doc_id == entry.doc_id;
        assert(matches[i].doc_id == entry.doc_id);
        assert(false);
    }
    assert forall|d: DocId| #[trigger]
        terms_of(after, d) == if d == entry.doc_id {
            entry.terms@
        } else {
            terms_of(matches, d)
        } by {
        if d == entry.doc_id {
            lemma_terms_of_at(after, k);
        } else if has_match(after, d) {
            let i = choose|i: int| 0 <= i < after.len() && after[i].doc_id == d;
            lemma_terms_of_at(after, i);
            if i < k {
                assert(matches[i].doc_id == d);
                lemma_terms_of_at(matches, i);
            } else {
                assert(matches[i - 1].doc_id == d);
                lemma_terms_of_at(matches, i - 1);
            }
        } else if has_match(matches, d) {
            let i = choose|i: int| 0 <= i < matches.len() && matches[i].doc_id == d;
            if i < k {
                assert(after[i].doc_id == d);
            } else {
                assert(after[i + 1].doc_id == d);
            }
        }
    }
}

/// Adds to the matches what one term of the query has to do with each
/// document of its posting list.
pub fn merge_postings(
    matches: &mut Vec<DocumentMatch>,
    list: &PostingList,
    query_frequency: Frequency,
)
    requires
        matches_ascending(old(matches)@),
        matches_hold_terms(old(matches)@),
        list.wf(),
    ensures
        matches_ascending(final(matches)@),
        matches_hold_terms(final(matches)@),
        forall|d: DocId| #[trigger]
            terms_of(final(matches)@, d) == if holds(list.dimension_map@, d) {
                terms_of(old(matches)@, d).push(term_match(*list, query_frequency, d))
            } else {
                terms_of(old(matches)@, d)
            },
{
    let ghost postings = list.dimension_map@;
    let mut at: usize = 0;
    let mut j: usize = 0;
    proof {
        assert(postings.take(0) =~= Seq::empty());
    }
    while j < list.dimension_map.len()
        invariant
            j <= postings.len(),
            at <= matches@.len(),
            postings == list.dimension_map@,
            ascending(postings),
            matches_ascending(matches@),
            matches_hold_terms(matches@),
            j < postings.len() ==> forall|i: int|
                0 <= i < at ==> (#[trigger] matches@[i]).doc_id < postings[j as int].doc_id,
            forall|d: DocId| #[trigger]
                terms_of(matches@, d) == if holds(postings.take(j as int), d) {
                    terms_of(old(matches)@, d).push(term_match(*list, query_frequency, d))
                } else {
                    terms_of(old(matches)@, d)
                },
        decreases (postings.len() - j) + (matches@.len() - at),
    {
        let posting = list.dimension_map[j];
        let ghost before = matches@;
        if at < matches.len() && matches[at].doc_id < posting.doc_id {
            at += 1;
        } else {
            let found = TermMatch {
                query_frequency,
                document_frequency: list.document_frequency,
                term_frequency: posting.term_frequency,
                squared_norm: list.squared_norm,
            };
            proof {
                lemma_frequencies_at(postings, j as int);
                assert(found == term_match(*list, query_frequency, posting.doc_id));
                let seen = postings.take(j as int);
                let next = postings.take(j + 1);
                assert(next =~= seen.push(posting));
                assert(!holds(seen, posting.doc_id)) by {
                    if holds(seen, posting.doc_id) {
                        let x = choose|x: int| 0 <= x < seen.len() && seen[x].doc_id == posting.doc_id;
                        assert(postings[x].doc_id < postings[j as int].doc_id);
                    }
                }
                assert forall|d: DocId| holds(next, d) <==> holds(seen, d) || d
                    == posting.doc_id by {
                    if holds(next, d) {
                        let x = choose|x: int| 0 <= x < next.len() && next[x].doc_id == d;
                        if x < j {
                            assert(seen[x].doc_id == d);
                        }
                    }
                    if holds(seen, d) {
                        let x = choose|x: int| 0 <= x < seen.len() && seen[x].doc_id == d;
                        assert(next[x].doc_id == d);
                    }
                    if d == posting.doc_id {
                        assert(next[j as int].doc_id == d);
                    }
                }
            }
            if at < matches.len() && matches[at].doc_id == posting.doc_id {
                proof {
                    lemma_terms_of_at(before, at as int);
                }
                matches[at].terms.push(found);
                proof {
                    assert(matches@ =~= before.update(at as int, matches@[at as int]));
                    lemma_terms_of_update(before, at as int, matches@[at as int]);
                    assert forall|i: int| 0 <= i < matches@.len() implies (
                    #[trigger] matches@[i]).terms@.len() > 0 by {
                        if i != at {
                            assert(matches@[i] == before[i]);
                        }
                    }
                }
            } else {
                let mut terms: Vec<TermMatch> = Vec::new();
                terms.push(found);
                let entry = DocumentMatch { doc_id: posting.doc_id, terms };
                proof {
                    assert forall|i: int| at <= i < before.len() implies before[i].doc_id
                        > entry.doc_id by {
                        if i > at {
                            assert(before[at as int].doc_id < before[i].doc_id);
                        }
                    }
                    lemma_terms_of_insert(before, at as int, entry);
                    assert(terms_of(before, entry.doc_id) =~= Seq::empty());
                    assert(entry.terms@ =~= Seq::<TermMatch>::empty().push(found));
                }
                matches.insert(at, entry);
                proof {
                    assert forall|i: int| 0 <= i < matches@.len() implies (
                    #[trigger] matches@[i]).terms@.len() > 0 by {
                        if i < at {
                            assert(matches@[i] == before[i]);
                        } else if i > at {
                            assert(matches@[i] == before[i - 1]);
                        }
                    }
                }
            }
            proof {
                assert forall|i: int| 0 <= i < at + 1 && j + 1 < postings.len() implies (
                #[trigger] matches@[i]).doc_id < postings[j + 1].doc_id by {
                    assert(postings[j as int].doc_id < postings[j + 1].doc_id);
                    if i < at {
                        assert(matches@[i] == before[i]);
                    }
                }
            }
            assert(at < matches.len());
            at += 1;
            j += 1;
        }
    }
    proof {
        assert(postings.take(j as int) =~= postings);
    }
}

/// These are the matches of the query with the index: one for each document
/// that holds a term of the query, in order of document, with all that the
/// terms of the query have to do with it.
pub open spec fn matching(index: InvertedIndex, query: QueryVector, matches: Seq<DocumentMatch>)
    -> bool {
    &&& matches_ascending(matches)
    &&& matches_hold_terms(matches)
    &&& forall|d: DocId| #[trigger]
        terms_of(matches, d) == term_matches(index, query, query.vocabulary@.len(), d)
}

/// Finds the documents that hold a term of the query. A term that the index
/// does not have matches no document.
pub fn match_documents(data: &IndexData, query: &QueryVector) -> (matches: Vec<DocumentMatch>)
    requires
        data.normalized_index.wf(),
        query.wf(),
    ensures
        matching(data.normalized_index, *query, matches@),
{
    let mut matches: Vec<DocumentMatch> = Vec::new();
    let mut k: usize = 0;
    proof {
        assert forall|d: DocId| #[trigger]
            terms_of(matches@, d) == term_matches(data.normalized_index, *query, 0, d) by {
            assert(!has_match(matches@, d));
        }
    }
    while k < query.len()
        invariant
            k <= query.vocabulary@.len(),
            data.normalized_index.wf(),
            query.wf(),
            matches_ascending(matches@),
            matches_hold_terms(matches@),
            forall|d: DocId| #[trigger]
                terms_of(matches@, d) == term_matches(data.normalized_index, *query, k as nat, d),
        decreases query.vocabulary@.len() - k,
    {
        let ghost before = matches@;
        match data.postings(query.vocabulary.terms[k].as_str()) {
            Some(list) => {
                merge_postings(&mut matches, list, query.frequencies[k]);
            },
            None => {},
        }
        proof {
            assert(query.vocabulary@[k as int] == query.vocabulary.terms@[k as int]@);
            assert forall|d: DocId| #[trigger]
                terms_of(matches@, d) == term_matches(
                    data.normalized_index,
                    *query,
                    (k + 1) as nat,
                    d,
                ) by {
                assert(terms_of(before, d) == term_matches(
                    data.normalized_index,
                    *query,
                    k as nat,
                    d,
                ));
            }
        }
        k += 1;
    }
    matches
}

/// The documents of the matches, in their order.
pub open spec fn matched_documents(matches: Seq<DocumentMatch>) -> Seq<DocId> {
    Seq::new(matches.len(), |i: int| matches[i].doc_id)
}

/// A query has one vector: two vectors that count the same terms hold the
/// same terms, in the same order, with the same frequencies.
pub proof fn lemma_query_vector_determined(a: QueryVector, b: QueryVector, terms: Seq<Seq<char>>)
    requires
        a.counts(terms),
        b.counts(terms),
    ensures
        a.vocabulary@ == b.vocabulary@,
        a.frequencies@ == b.frequencies@,
{
    assert forall|i: int| 0 <= i < a.frequencies@.len() implies a.frequencies@[i]
        == b.frequencies@[i] by {
        assert(a.frequencies@[i] == occurrences(terms, a.vocabulary@[i]));
        assert(b.frequencies@[i] == occurrences(terms, b.vocabulary@[i]));
    }
    assert(a.frequencies@ =~= b.frequencies@);
}

/// A query matches an index in one way: asked twice, the same query finds
/// the same documents, in the same order, with the same terms.
pub proof fn lemma_matches_determined(
    index: InvertedIndex,
    query: QueryVector,
    a: Seq<DocumentMatch>,
    b: Seq<DocumentMatch>,
)
    requires
        matching(index, query, a),
        matching(index, query, b),
    ensures
        a.len() == b.len(),
        forall|i: int|
            0 <= i < a.len() ==> (#[trigger] a[i]).doc_id == b[i].doc_id && a[i].terms@
                == b[i].terms@,
{
    let n = query.vocabulary@.len();
    let xs = matched_documents(a);
    let ys = matched_documents(b);
    assert forall|d: DocId| xs.contains(d) <==> ys.contains(d) by {
        assert(terms_of(a, d) == term_matches(index, query, n, d));
        assert(terms_of(b, d) == term_matches(index, query, n, d));
        if xs.contains(d) {
            let i = choose|i: int| 0 <= i < xs.len() && xs[i] == d;
            lemma_terms_of_at(a, i);
            assert(a[i].terms@.len() > 0);
            assert(has_match(b, d));
            let j = choose|j: int| 0 <= j < b.len() && b[j].doc_id == d;
            assert(ys[j] == d);
        }
        if ys.contains(d) {
            let j = choose|j: int| 0 <= j < ys.len() && ys[j] == d;
            lemma_terms_of_at(b, j);
            assert(b[j].terms@.len() > 0);
            assert(has_match(a, d));
            let i = choose|i: int| 0 <= i < a.len() && a[i].doc_id == d;
            assert(xs[i] == d);
        }
    }
    assert(strictly_ascending(xs)) by {
        assert forall|i: int, j: int| 0 <= i < j < xs.len() implies xs[i] < xs[j] by {
            assert(a[i].doc_id < a[j].doc_id);
        }
    }
    assert(strictly_ascending(ys)) by {
        assert forall|i: int, j: int| 0 <= i < j < ys.len() implies ys[i] < ys[j] by {
            assert(b[i].doc_id < b[j].doc_id);
        }
    }
    lemma_ascending_determined(xs, ys);
    assert(a.len() == xs.len() && b.len() == ys.len());
    assert forall|i: int| 0 <= i < a.len() implies (#[trigger] a[i]).doc_id == b[i].doc_id
        && a[i].terms@ == b[i].terms@ by {
        assert(xs[i] == ys[i]);
        lemma_terms_of_at(a, i);
        lemma_terms_of_at(b, i);
        assert(terms_of(a, a[i].doc_id) == term_matches(index, query, n, a[i].doc_id));
        assert(terms_of(b, a[i].doc_id) == term_matches(index, query, n, a[i].doc_id));
    }
}

/// Terms that the index does not have match nothing.
pub proof fn lemma_unknown_terms(index: InvertedIndex, query: QueryVector, n: nat, doc_id: DocId)
    requires
        n <= query.vocabulary@.len(),
        forall|i: int|
            0 <= i < query.vocabulary@.len() ==> !index.vocabulary.has(
                #[trigger] query.vocabulary@[i],
            ),
    ensures
        term_matches(index, query, n, doc_id) == Seq::<TermMatch>::empty(),
    decreases n,
{
    if n > 0 {
        lemma_unknown_terms(index, query, (n - 1) as nat, doc_id);
        assert(!index.vocabulary.has(query.vocabulary@[n - 1]));
    }
}

/// A query of which the index has no term matches no document.
pub proof fn lemma_unknown_terms_match_nothing(
    index: InvertedIndex,
    query: QueryVector,
    matches: Seq<DocumentMatch>,
)
    requires
        matching(index, query, matches),
        forall|i: int|
            0 <= i < query.vocabulary@.len() ==> !index.vocabulary.has(
                #[trigger] query.vocabulary@[i],
            ),
    ensures
        matches.len() == 0,
{
    if matches.len() > 0 {
        let d = matches[0].doc_id;
        lemma_terms_of_at(matches, 0);
        lemma_unknown_terms(index, query, query.vocabulary@.len(), d);
        assert(terms_of(matches, d) == term_matches(index, query, query.vocabulary@.len(), d));
        assert(matches[0].terms@.len() > 0);
    }
}

} // verus!
