//! The index builder: from tokenized documents to an inverted index whose
//! posting lists are normalized.

use crate::posting_list::{
    lemma_frequencies_at, lemma_postings_determined, lemma_squares_positive,
    lemma_total_at_least_len, position_of, sum_of_squares, DocId, Frequency, PostingList,
};
use crate::retrieve_tokens::{document_id, parse_document_id, tokenize_document};
use crate::vocabulary::Vocabulary;
use crate::words::{
    distinct_terms, filter_tokens, lemma_distinct_terms_push, lemma_occurrences_push,
    lemma_surviving_none, lowercased, occurrences, surviving, token_views,
};
use std::collections::HashMap;
use vstd::hash_set::StringHashSet;
use vstd::prelude::*;

verus! {

broadcast use vstd::std_specs::hash::group_hash_axioms;

/// A document as the index builder sees it: its tokens, in order.
pub struct DocumentView {
    pub doc_id: DocId,
    pub tokens: Seq<Seq<char>>,
}

/// The terms of the documents, in order: their tokens without the excluded
/// ones.
pub open spec fn corpus_terms(documents: Seq<DocumentView>, excluded: Set<Seq<char>>) -> Seq<
    Seq<char>,
>
    decreases documents.len(),
{
    if documents.len() == 0 {
        Seq::empty()
    } else {
        corpus_terms(documents.drop_last(), excluded) + surviving(
            documents.last().tokens,
            excluded,
        )
    }
}

/// How often `term` occurs as a term in the documents numbered `doc_id`.
pub open spec fn term_count(
    documents: Seq<DocumentView>,
    excluded: Set<Seq<char>>,
    term: Seq<char>,
    doc_id: DocId,
) -> nat
    decreases documents.len(),
{
    if documents.len() == 0 {
        0
    } else {
        term_count(documents.drop_last(), excluded, term, doc_id) + if documents.last().doc_id
            == doc_id {
            occurrences(surviving(documents.last().tokens, excluded), term)
        } else {
            0nat
        }
    }
}

/// For each document its number of terms. Of two documents with one number
/// the later counts.
pub open spec fn term_lengths(documents: Seq<DocumentView>, excluded: Set<Seq<char>>) -> Map<
    DocId,
    nat,
>
    decreases documents.len(),
{
    if documents.len() == 0 {
        Map::empty()
    } else {
        term_lengths(documents.drop_last(), excluded).insert(
            documents.last().doc_id,
            surviving(documents.last().tokens, excluded).len(),
        )
    }
}

/// The two maps hold the same numbers for the same documents.
pub open spec fn same_lengths(held: Map<DocId, Frequency>, lengths: Map<DocId, nat>) -> bool {
    &&& forall|d: DocId| held.dom().contains(d) <==> lengths.dom().contains(d)
    &&& forall|d: DocId| #[trigger] held.dom().contains(d) ==> held[d] == lengths[d]
}

/// The occurrences that the lists count, all together.
pub open spec fn total_occurrences(lists: Seq<PostingList>) -> nat
    decreases lists.len(),
{
    if lists.len() == 0 {
        0
    } else {
        total_occurrences(lists.drop_last()) + lists.last().occurrences()
    }
}

/// The total counts every list.
pub proof fn lemma_total_occurrences_covers(lists: Seq<PostingList>, k: int)
    requires
        0 <= k < lists.len(),
    ensures
        lists[k].occurrences() <= total_occurrences(lists),
    decreases lists.len(),
{
    if k < lists.len() - 1 {
        lemma_total_occurrences_covers(lists.drop_last(), k);
    }
}

/// What replacing one list does to the total.
pub proof fn lemma_total_occurrences_update(lists: Seq<PostingList>, k: int, list: PostingList)
    requires
        0 <= k < lists.len(),
    ensures
        total_occurrences(lists.update(k, list)) + lists[k].occurrences() == total_occurrences(
            lists,
        ) + list.occurrences(),
    decreases lists.len(),
{
    let after = lists.update(k, list);
    if k == lists.len() - 1 {
        assert(after.drop_last() =~= lists.drop_last());
    } else {
        assert(after.drop_last() =~= lists.drop_last().update(k, list));
        lemma_total_occurrences_update(lists.drop_last(), k, list);
    }
}

/// Lists that hold the same postings count the same occurrences.
pub proof fn lemma_total_occurrences_same(a: Seq<PostingList>, b: Seq<PostingList>)
    requires
        a.len() == b.len(),
        forall|k: int| 0 <= k < a.len() ==> a[k].dimension_map@ == b[k].dimension_map@,
    ensures
        total_occurrences(a) == total_occurrences(b),
    decreases a.len(),
{
    if a.len() > 0 {
        lemma_total_occurrences_same(a.drop_last(), b.drop_last());
    }
}

/// The posting lists of all terms, each term under its number in the
/// vocabulary.
pub struct InvertedIndex {
    pub vocabulary: Vocabulary,
    pub postings: Vec<PostingList>,
}

impl InvertedIndex {
    /// Every term has its list, and every list holds a document.
    pub open spec fn wf(&self) -> bool {
        &&& self.vocabulary.wf()
        &&& self.postings@.len() == self.vocabulary@.len()
        &&& forall|i: int|
            0 <= i < self.postings@.len() ==> (#[trigger] self.postings@[i]).wf()
                && self.postings@[i].document_frequency > 0
    }

    /// All weights are plain counts.
    pub open spec fn is_raw(&self) -> bool {
        forall|i: int| 0 <= i < self.postings@.len() ==> (#[trigger] self.postings@[i]).is_raw()
    }

    /// The weights of every term have length 1 as a vector.
    pub open spec fn is_normalized(&self) -> bool {
        forall|i: int|
            0 <= i < self.postings@.len() ==> (#[trigger] self.postings@[i]).is_normalized()
    }

    /// The posting list of `term`, where the index has the term.
    pub open spec fn list(&self, term: Seq<char>) -> PostingList {
        self.postings@[self.vocabulary.number(term)]
    }

    /// How often `term` occurs in `doc_id`.
    pub open spec fn frequency(&self, term: Seq<char>, doc_id: DocId) -> nat {
        if self.vocabulary.has(term) {
            self.list(term).frequency(doc_id)
        } else {
            0
        }
    }

    /// In how many documents `term` occurs.
    pub open spec fn document_frequency(&self, term: Seq<char>) -> nat {
        if self.vocabulary.has(term) {
            self.list(term).document_frequency as nat
        } else {
            0
        }
    }

    /// The occurrences recorded, of all terms together.
    pub open spec fn recorded(&self) -> nat {
        total_occurrences(self.postings@)
    }

    /// An index without terms.
    pub fn new() -> (index: Self)
        ensures
            index.wf(),
            index.is_raw(),
            index.recorded() == 0,
            index.vocabulary@ == Seq::<Seq<char>>::empty(),
            forall|t: Seq<char>, d: DocId| index.frequency(t, d) == 0,
    {
        let index = InvertedIndex { vocabulary: Vocabulary::new(), postings: Vec::new() };
        proof {
            index.vocabulary.lemma_listed();
            assert forall|t: Seq<char>, d: DocId| index.frequency(t, d) == 0 by {
                assert(!index.vocabulary@.contains(t));
            }
        }
        index
    }

    /// Records one occurrence of `term` in `doc_id`.
    pub fn record(&mut self, term: String, doc_id: DocId)
        requires
            old(self).wf(),
            old(self).is_raw(),
            old(self).recorded() < usize::MAX,
        ensures
            final(self).wf(),
            final(self).is_raw(),
            final(self).recorded() == old(self).recorded() + 1,
            final(self).vocabulary@ == if old(self).vocabulary@.contains(term@) {
                old(self).vocabulary@
            } else {
                old(self).vocabulary@.push(term@)
            },
            forall|t: Seq<char>, d: DocId| #[trigger]
                final(self).frequency(t, d) == old(self).frequency(t, d) + if t == term@ && d
                    == doc_id {
                    1nat
                } else {
                    0nat
                },
    {
        let ghost text = term@;
        let ghost lists = self.postings@;
        proof {
            self.vocabulary.lemma_listed();
        }
        let i = self.vocabulary.intern(term);
        if i < self.postings.len() {
            proof {
                lemma_total_occurrences_covers(lists, i as int);
            }
            self.postings[i].record_occurrence(doc_id);
            proof {
                assert(self.postings@ =~= lists.update(i as int, self.postings@[i as int]));
                lemma_total_occurrences_update(lists, i as int, self.postings@[i as int]);
            }
        } else {
            let list = PostingList::with_doc_id(doc_id);
            self.postings.push(list);
            proof {
                assert(self.postings@.drop_last() =~= lists);
            }
        }
        proof {
            assert forall|t: Seq<char>, d: DocId| #[trigger]
                self.frequency(t, d) == old(self).frequency(t, d) + if t == text && d == doc_id {
                    1nat
                } else {
                    0nat
                } by {
                if t != text && self.vocabulary.has(t) {
                    let k = self.vocabulary.number(t);
                    assert(self.vocabulary@[k] == t);
                    assert(k != i);
                    assert(self.postings@[k] == lists[k]);
                }
            }
        }
    }
}

/// Why an index could not be built.
#[derive(Debug)]
pub enum BuildError {
    /// The name of the file at `position` does not start with a document
    /// number.
    InvalidDocumentName { position: usize },
    /// The tokenizer refused the text of the file at `position`; `message`
    /// is its description of the failure.
    Tokenize { position: usize, message: String },
    /// The corpus holds more terms than can be counted.
    TooManyTokens,
}

/// An index under construction. It takes the documents one by one, and is
/// turned into the finished index once.
pub struct IndexBuilder {
    pub index: InvertedIndex,
    pub document_lengths: HashMap<DocId, Frequency>,
    pub stop_words: StringHashSet,
    pub punctuations: StringHashSet,
    pub total_tokens_count: Frequency,
    /// The documents taken so far.
    pub documents: Ghost<Seq<DocumentView>>,
}

impl IndexBuilder {
    /// The tokens that do not count as terms.
    pub open spec fn excluded(&self) -> Set<Seq<char>> {
        self.stop_words@.union(self.punctuations@)
    }

    /// The counts are those of the documents taken so far.
    pub open spec fn wf(&self) -> bool {
        &&& self.index.wf()
        &&& self.index.is_raw()
        &&& self.index.recorded() == self.total_tokens_count
        &&& self.index.vocabulary@ == distinct_terms(
            corpus_terms(self.documents@, self.excluded()),
        )
        &&& forall|t: Seq<char>, d: DocId| #[trigger]
            self.index.frequency(t, d) == term_count(self.documents@, self.excluded(), t, d)
        &&& same_lengths(self.document_lengths@, term_lengths(self.documents@, self.excluded()))
        &&& self.total_tokens_count == corpus_terms(self.documents@, self.excluded()).len()
    }

    /// A builder that has taken no document yet.
    pub fn new(stop_words: StringHashSet, punctuations: StringHashSet) -> (builder: Self)
        ensures
            builder.wf(),
            builder.documents@ == Seq::<DocumentView>::empty(),
            builder.stop_words@ == stop_words@,
            builder.punctuations@ == punctuations@,
    {
        IndexBuilder {
            index: InvertedIndex::new(),
            document_lengths: HashMap::new(),
            stop_words,
            punctuations,
            total_tokens_count: 0,
            documents: Ghost(Seq::empty()),
        }
    }

    /// Takes one more document: records each of its terms, in order, and
    /// notes how many they are. Fails, and changes nothing, where the corpus
    /// would then hold more terms than can be counted.
    pub fn add_document(&mut self, doc_id: DocId, tokens: &Vec<String>) -> (done: Result<
        (),
        BuildError,
    >)
        requires
            old(self).wf(),
        ensures
            final(self).stop_words@ == old(self).stop_words@,
            final(self).punctuations@ == old(self).punctuations@,
            final(self).wf(),
            done is Ok <==> old(self).total_tokens_count + surviving(
                token_views(tokens@),
                old(self).excluded(),
            ).len() <= usize::MAX,
            done is Ok ==> final(self).documents@ == old(self).documents@.push(
                DocumentView { doc_id, tokens: token_views(tokens@) },
            ),
            done matches Err(e) ==> e is TooManyTokens && *final(self) == *old(self),
    {
        let kept = filter_tokens(tokens, &self.stop_words, &self.punctuations);
        let counter: Frequency = kept.len();
        let total: Frequency = match self.total_tokens_count.checked_add(counter) {
            Some(total) => total,
            None => {
                return Err(BuildError::TooManyTokens);
            },
        };
        let ghost excluded = self.excluded();
        let ghost documents = self.documents@;
        let ghost terms = token_views(kept@);
        let ghost corpus = corpus_terms(documents, excluded);
        let ghost base = self.total_tokens_count;
        let mut j: usize = 0;
        proof {
            assert(corpus + terms.take(0) =~= corpus);
        }
        while j < kept.len()
            invariant
                j <= kept@.len(),
                terms == token_views(kept@),
                base + kept@.len() <= usize::MAX,
                self.index.wf(),
                self.index.is_raw(),
                self.index.recorded() == base + j,
                self.index.vocabulary@ == distinct_terms(corpus + terms.take(j as int)),
                forall|t: Seq<char>, d: DocId| #[trigger]
                    self.index.frequency(t, d) == term_count(documents, excluded, t, d) + if d
                        == doc_id {
                        occurrences(terms.take(j as int), t)
                    } else {
                        0nat
                    },
                self.stop_words == old(self).stop_words,
                self.punctuations == old(self).punctuations,
                self.document_lengths == old(self).document_lengths,
                self.total_tokens_count == old(self).total_tokens_count,
                self.documents == old(self).documents,
            decreases kept@.len() - j,
        {
            let ghost before = self.index;
            let term = kept[j].clone();
            self.index.record(term, doc_id);
            proof {
                let seen = terms.take(j as int);
                assert(terms.take(j + 1) =~= seen.push(terms[j as int]));
                assert(corpus + terms.take(j + 1) =~= (corpus + seen).push(terms[j as int]));
                lemma_distinct_terms_push(corpus + seen, terms[j as int]);
                assert forall|t: Seq<char>, d: DocId| #[trigger]
                    self.index.frequency(t, d) == term_count(documents, excluded, t, d) + if d
                        == doc_id {
                        occurrences(terms.take(j + 1), t)
                    } else {
                        0nat
                    } by {
                    lemma_occurrences_push(seen, terms[j as int], t);
                    assert(before.frequency(t, d) == term_count(documents, excluded, t, d) + if d
                        == doc_id {
                        occurrences(seen, t)
                    } else {
                        0nat
                    });
                }
            }
            j += 1;
        }
        self.document_lengths.insert(doc_id, counter);
        self.total_tokens_count = total;
        let ghost document = DocumentView { doc_id, tokens: token_views(tokens@) };
        self.documents = Ghost(documents.push(document));
        proof {
            assert(terms.take(j as int) =~= terms);
            assert(documents.push(document).drop_last() =~= documents);
            assert forall|t: Seq<char>, d: DocId| #[trigger]
                self.index.frequency(t, d) == term_count(self.documents@, excluded, t, d) by {
                assert(self.index.frequency(t, d) == term_count(documents, excluded, t, d) + if d
                    == doc_id {
                    occurrences(terms.take(j as int), t)
                } else {
                    0nat
                });
            }
        }
        Ok(())
    }

    /// Normalizes every posting list, once, and hands out the finished
    /// index.
    pub fn finish(self) -> (data: IndexData)
        requires
            self.wf(),
        ensures
            data.stop_words@ == self.stop_words@,
            data.punctuations@ == self.punctuations@,
            data.indexes(self.documents@),
    {
        let IndexBuilder {
            index,
            document_lengths,
            stop_words,
            punctuations,
            total_tokens_count,
            documents,
        } = self;
        let mut index = index;
        let ghost raw = index;
        let mut i: usize = 0;
        while i < index.postings.len()
            invariant
                i <= index.postings@.len(),
                raw.wf(),
                index.vocabulary == raw.vocabulary,
                index.postings@.len() == raw.postings@.len(),
                forall|k: int|
                    0 <= k < index.postings@.len() ==> (#[trigger] index.postings@[k]).wf()
                        && index.postings@[k].dimension_map == raw.postings@[k].dimension_map
                        && index.postings@[k].document_frequency
                        == raw.postings@[k].document_frequency,
                forall|k: int| 0 <= k < i ==> (#[trigger] index.postings@[k]).is_normalized(),
            decreases index.postings@.len() - i,
        {
            index.postings[i].normalize();
            i += 1;
        }
        proof {
            lemma_total_occurrences_same(raw.postings@, index.postings@);
            assert forall|t: Seq<char>, d: DocId| #[trigger]
                index.frequency(t, d) == raw.frequency(t, d) by {
                if raw.vocabulary.has(t) {
                    let k = raw.vocabulary.number(t);
                    assert(index.postings@[k].dimension_map == raw.postings@[k].dimension_map);
                }
            }
        }
        IndexData {
            normalized_index: index,
            document_lengths,
            stop_words,
            punctuations,
            total_tokens_count,
        }
    }
}

/// The finished index with what belongs to it: what the query side reads,
/// and never changes.
pub struct IndexData {
    /// For each term its normalized posting list.
    pub normalized_index: InvertedIndex,
    /// For each document the number of its terms.
    pub document_lengths: HashMap<DocId, Frequency>,
    /// The stop words that were left out of the index.
    pub stop_words: StringHashSet,
    /// The punctuation tokens that were left out of the index.
    pub punctuations: StringHashSet,
    /// The number of terms in the whole corpus.
    pub total_tokens_count: Frequency,
}

impl IndexData {
    /// The tokens that do not count as terms.
    pub open spec fn excluded(&self) -> Set<Seq<char>> {
        self.stop_words@.union(self.punctuations@)
    }

    /// This is the index of `documents`: its terms are theirs, in the order
    /// in which they first occur; each term is counted in each document as
    /// often as it occurs there; and every posting list is normalized.
    pub open spec fn indexes(&self, documents: Seq<DocumentView>) -> bool {
        &&& self.normalized_index.wf()
        &&& self.normalized_index.is_normalized()
        &&& self.normalized_index.vocabulary@ == distinct_terms(
            corpus_terms(documents, self.excluded()),
        )
        &&& forall|t: Seq<char>, d: DocId| #[trigger]
            self.normalized_index.frequency(t, d) == term_count(documents, self.excluded(), t, d)
        &&& same_lengths(self.document_lengths@, term_lengths(documents, self.excluded()))
        &&& self.total_tokens_count == corpus_terms(documents, self.excluded()).len()
        &&& self.total_tokens_count == self.normalized_index.recorded()
    }

    /// The posting list of `term`, where the index has the term.
    pub fn postings(&self, term: &str) -> (found: Option<&PostingList>)
        requires
            self.normalized_index.wf(),
        ensures
            match found {
                Some(list) => self.normalized_index.vocabulary.has(term@)
                    && *list == self.normalized_index.list(term@),
                None => !self.normalized_index.vocabulary.has(term@),
            },
    {
        proof {
            self.normalized_index.vocabulary.lemma_listed();
        }
        match self.normalized_index.vocabulary.lookup(term) {
            Some(i) => Some(&self.normalized_index.postings[i]),
            None => None,
        }
    }

    /// In how many documents `term` occurs: 0 where the index does not have
    /// the term.
    pub fn document_frequency(&self, term: &str) -> (df: Frequency)
        requires
            self.normalized_index.wf(),
        ensures
            df == self.normalized_index.document_frequency(term@),
    {
        match self.postings(term) {
            Some(list) => list.document_frequency,
            None => 0,
        }
    }
}

/// A tokenized document.
pub struct Document {
    pub doc_id: DocId,
    pub tokens: Vec<String>,
}

impl View for Document {
    type V = DocumentView;

    open spec fn view(&self) -> DocumentView {
        DocumentView { doc_id: self.doc_id, tokens: token_views(self.tokens@) }
    }
}

/// The documents as the index builder sees them.
pub open spec fn document_views(documents: Seq<Document>) -> Seq<DocumentView> {
    Seq::new(documents.len(), |i: int| documents[i]@)
}

/// Builds the index of `documents`, taken in their order. Fails where they
/// hold more terms than can be counted.
pub fn index_documents(
    documents: &Vec<Document>,
    stop_words: StringHashSet,
    punctuations: StringHashSet,
) -> (built: Result<IndexData, BuildError>)
    ensures
        match built {
            Ok(data) => {
                &&& data.stop_words@ == stop_words@
                &&& data.punctuations@ == punctuations@
                &&& data.indexes(document_views(documents@))
            },
            Err(e) => e is TooManyTokens && corpus_terms(
                document_views(documents@),
                stop_words@.union(punctuations@),
            ).len() > usize::MAX,
        },
{
    let ghost excluded = stop_words@.union(punctuations@);
    let ghost views = document_views(documents@);
    let mut builder = IndexBuilder::new(stop_words, punctuations);
    let mut i: usize = 0;
    proof {
        assert(views.take(0) =~= Seq::empty());
    }
    while i < documents.len()
        invariant
            i <= documents@.len(),
            views == document_views(documents@),
            builder.wf(),
            builder.excluded() == excluded,
            builder.stop_words@ == stop_words@,
            builder.punctuations@ == punctuations@,
            builder.documents@ == views.take(i as int),
        decreases documents@.len() - i,
    {
        proof {
            assert(views.take(i + 1) =~= views.take(i as int).push(views[i as int]));
            assert(views.take(i + 1).drop_last() =~= views.take(i as int));
        }
        match builder.add_document(documents[i].doc_id, &documents[i].tokens) {
            Ok(()) => {},
            Err(e) => {
                proof {
                    lemma_corpus_terms_grow(views, excluded, i + 1);
                }
                return Err(e);
            },
        }
        i += 1;
    }
    proof {
        assert(views.take(i as int) =~= views);
    }
    Ok(builder.finish())
}

/// The terms of the first documents are part of the terms of all.
pub proof fn lemma_corpus_terms_grow(
    documents: Seq<DocumentView>,
    excluded: Set<Seq<char>>,
    n: int,
)
    requires
        0 <= n <= documents.len(),
    ensures
        corpus_terms(documents.take(n), excluded).len() <= corpus_terms(
            documents,
            excluded,
        ).len(),
    decreases documents.len(),
{
    if n == documents.len() {
        assert(documents.take(n) =~= documents);
    } else {
        assert(documents.take(n) =~= documents.drop_last().take(n));
        lemma_corpus_terms_grow(documents.drop_last(), excluded, n);
    }
}

/// In a finished index the weights of every term that occurs have length 1
/// as a vector: the squares of the occurrences sum to the square of what
/// they are divided by, and that is not 0.
pub proof fn lemma_weights_have_unit_length(
    data: IndexData,
    documents: Seq<DocumentView>,
    term: Seq<char>,
)
    requires
        data.indexes(documents),
        data.normalized_index.vocabulary.has(term),
    ensures
        data.normalized_index.list(term).squared_norm == sum_of_squares(
            data.normalized_index.list(term).dimension_map@,
        ),
        data.normalized_index.list(term).squared_norm > 0,
{
    let index = data.normalized_index;
    let k = index.vocabulary.number(term);
    assert(index.vocabulary@[k] == term);
    assert(index.postings@[k].wf());
    assert(index.postings@[k].is_normalized());
    lemma_squares_positive(index.postings@[k].dimension_map@);
}

/// A document file: its name, which gives the number of the document, and
/// what the tokenizer made of its text.
pub struct TokenizedFile {
    pub name: String,
    /// The tokens as the tokenizer gave them, or its description of a
    /// failure.
    pub encoded: Result<Vec<String>, String>,
}

/// The file gives a document: its name gives a number, and the tokenizer
/// gave tokens.
pub open spec fn is_ready(file: TokenizedFile) -> bool {
    document_id(file.name@) is Some && file.encoded is Ok
}

/// The first `n` files give documents.
pub open spec fn all_ready(files: Seq<TokenizedFile>, n: int) -> bool {
    forall|i: int| 0 <= i < n ==> is_ready(#[trigger] files[i])
}

/// The document that a file gives: its number is read from the name of the
/// file, and its tokens are those of the tokenizer, in lowercase.
pub open spec fn document_of(file: TokenizedFile) -> DocumentView {
    DocumentView {
        doc_id: document_id(file.name@)->0,
        tokens: lowercased(token_views(file.encoded->Ok_0@)),
    }
}

/// The documents that the files give, in their order.
pub open spec fn documents_of(files: Seq<TokenizedFile>) -> Seq<DocumentView> {
    Seq::new(files.len(), |i: int| document_of(files[i]))
}

/// Builds the index of the documents in `files`, taken in their order: each
/// gets its number from the name of its file and its tokens from what the
/// tokenizer gave, put in lowercase. Fails at the first file whose name
/// gives no number or whose text the tokenizer refused, or with which the
/// corpus holds more terms than can be counted.
pub fn build_index(
    files: &Vec<TokenizedFile>,
    stop_words: StringHashSet,
    punctuations: StringHashSet,
) -> (built: Result<IndexData, BuildError>)
    ensures
        match built {
            Ok(data) => {
                &&& data.stop_words@ == stop_words@
                &&& data.punctuations@ == punctuations@
                &&& all_ready(files@, files@.len() as int)
                &&& data.indexes(documents_of(files@))
            },
            Err(BuildError::InvalidDocumentName { position }) => {
                &&& position < files@.len()
                &&& all_ready(files@, position as int)
                &&& document_id(files@[position as int].name@) is None
                &&& corpus_terms(
                    documents_of(files@.take(position as int)),
                    stop_words@.union(punctuations@),
                ).len() <= usize::MAX
            },
            Err(BuildError::Tokenize { position, message }) => {
                &&& position < files@.len()
                &&& all_ready(files@, position as int)
                &&& document_id(files@[position as int].name@) is Some
                &&& files@[position as int].encoded == Err::<Vec<String>, String>(message)
                &&& corpus_terms(
                    documents_of(files@.take(position as int)),
                    stop_words@.union(punctuations@),
                ).len() <= usize::MAX
            },
            Err(BuildError::TooManyTokens) => exists|n: int|
                {
                    &&& 0 < n <= files@.len()
                    &&& all_ready(files@, n)
                    &&& (#[trigger] corpus_terms(
                        documents_of(files@.take(n)),
                        stop_words@.union(punctuations@),
                    )).len() > usize::MAX
                    &&& corpus_terms(
                        documents_of(files@.take(n - 1)),
                        stop_words@.union(punctuations@),
                    ).len() <= usize::MAX
                },
        },
{
    let ghost excluded = stop_words@.union(punctuations@);
    let mut builder = IndexBuilder::new(stop_words, punctuations);
    let mut i: usize = 0;
    proof {
        assert(documents_of(files@.take(0)) =~= Seq::empty());
    }
    while i < files.len()
        invariant
            i <= files@.len(),
            builder.wf(),
            builder.excluded() == excluded,
            builder.stop_words@ == stop_words@,
            builder.punctuations@ == punctuations@,
            builder.documents@ == documents_of(files@.take(i as int)),
            all_ready(files@, i as int),
        decreases files@.len() - i,
    {
        let ghost taken = builder.documents@;
        let doc_id = match parse_document_id(files[i].name.as_str()) {
            Some(doc_id) => doc_id,
            None => {
                return Err(BuildError::InvalidDocumentName { position: i });
            },
        };
        let tokens = match tokenize_document(&files[i].encoded) {
            Ok(tokens) => tokens,
            Err(e) => {
                return Err(BuildError::Tokenize { position: i, message: e.message });
            },
        };
        proof {
            assert(is_ready(files@[i as int]));
            assert(documents_of(files@.take(i + 1)) =~= taken.push(document_of(files@[i as int])));
            assert(taken.push(document_of(files@[i as int])).drop_last() =~= taken);
        }
        match builder.add_document(doc_id, &tokens) {
            Ok(()) => {},
            Err(e) => {
                proof {
                    assert(files@.take(i + 1 - 1) =~= files@.take(i as int));
                    assert(corpus_terms(documents_of(files@.take(i + 1)), excluded).len()
                        > usize::MAX);
                }
                return Err(BuildError::TooManyTokens);
            },
        }
        i += 1;
    }
    proof {
        assert(files@.take(i as int) =~= files@);
    }
    Ok(builder.finish())
}

/// In a finished index the document frequency of a term is the number of
/// the documents in which the term occurs: as many as its dimension map has
/// entries, however often the term occurs in one of them.
pub proof fn lemma_document_frequency(
    data: IndexData,
    documents: Seq<DocumentView>,
    term: Seq<char>,
)
    requires
        data.indexes(documents),
        data.normalized_index.vocabulary.has(term),
    ensures
        data.normalized_index.list(term).document_frequency == data.normalized_index.list(
            term,
        ).dimension_map@.len(),
        data.normalized_index.list(term)@.dom().finite(),
        data.normalized_index.list(term).document_frequency == data.normalized_index.list(
            term,
        )@.dom().len(),
        forall|d: DocId|
            data.normalized_index.list(term)@.dom().contains(d) <==> term_count(
                documents,
                data.excluded(),
                term,
                d,
            ) > 0,
{
    let index = data.normalized_index;
    let k = index.vocabulary.number(term);
    assert(index.vocabulary@[k] == term);
    assert(index.postings@[k].wf());
    index.postings@[k].lemma_document_frequency_counts_documents();
    assert forall|d: DocId|
        index.list(term)@.dom().contains(d) <==> term_count(documents, data.excluded(), term, d)
            > 0 by {
        assert(index.frequency(term, d) == term_count(documents, data.excluded(), term, d));
    }
}

/// In a finished index every term occurs in a document, and in no more
/// documents than the corpus has terms: the inverse document frequency of a
/// term divides by no 0 and is the logarithm of no number below 1.
pub proof fn lemma_document_frequency_bounds(
    data: IndexData,
    documents: Seq<DocumentView>,
    term: Seq<char>,
)
    requires
        data.indexes(documents),
        data.normalized_index.vocabulary.has(term),
    ensures
        1 <= data.normalized_index.document_frequency(term) <= data.total_tokens_count,
{
    let index = data.normalized_index;
    let k = index.vocabulary.number(term);
    assert(index.vocabulary@[k] == term);
    assert(index.postings@[k].wf());
    lemma_total_at_least_len(index.postings@[k].dimension_map@);
    lemma_total_occurrences_covers(index.postings@, k);
}

/// The index of a corpus of one document counts every term in one document.
pub proof fn lemma_single_document(data: IndexData, document: DocumentView, term: Seq<char>)
    requires
        data.indexes(seq![document]),
        data.normalized_index.vocabulary.has(term),
    ensures
        data.normalized_index.document_frequency(term) == 1,
        data.normalized_index.list(term)@.dom() == set![document.doc_id],
{
    let documents = seq![document];
    let index = data.normalized_index;
    let k = index.vocabulary.number(term);
    assert(index.vocabulary@[k] == term);
    let list = index.postings@[k];
    assert(list.wf());
    let postings = list.dimension_map@;
    assert(documents.drop_last() =~= Seq::empty());
    assert forall|i: int| 0 <= i < postings.len() implies postings[i].doc_id
        == document.doc_id by {
        let d = postings[i].doc_id;
        lemma_frequencies_at(postings, i);
        assert(index.frequency(term, d) == term_count(documents, data.excluded(), term, d));
        assert(term_count(documents.drop_last(), data.excluded(), term, d) == 0);
    }
    if postings.len() > 1 {
        assert(postings[0].doc_id < postings[1].doc_id);
    }
    assert(list@.dom() =~= set![document.doc_id]) by {
        lemma_frequencies_at(postings, 0);
        assert forall|d: DocId| list@.dom().contains(d) implies d == document.doc_id by {
            let i = position_of(postings, d);
            assert(postings[i].doc_id == d);
        }
    }
}

/// Two indexes of the same corpus are the same: they have the same terms
/// under the same numbers, with the same posting lists, and the same
/// lengths and total.
pub proof fn lemma_index_determined(a: IndexData, b: IndexData, documents: Seq<DocumentView>)
    requires
        a.indexes(documents),
        b.indexes(documents),
        a.excluded() == b.excluded(),
    ensures
        a.normalized_index.vocabulary@ == b.normalized_index.vocabulary@,
        a.normalized_index.postings@.len() == b.normalized_index.postings@.len(),
        forall|i: int|
            0 <= i < a.normalized_index.postings@.len() ==> {
                &&& (#[trigger] a.normalized_index.postings@[i]).dimension_map@
                    == b.normalized_index.postings@[i].dimension_map@
                &&& a.normalized_index.postings@[i].document_frequency
                    == b.normalized_index.postings@[i].document_frequency
                &&& a.normalized_index.postings@[i].squared_norm
                    == b.normalized_index.postings@[i].squared_norm
            },
        a.document_lengths@ == b.document_lengths@,
        a.total_tokens_count == b.total_tokens_count,
{
    let x = a.normalized_index;
    let y = b.normalized_index;
    assert forall|i: int| 0 <= i < x.postings@.len() implies {
        &&& (#[trigger] x.postings@[i]).dimension_map@ == y.postings@[i].dimension_map@
        &&& x.postings@[i].document_frequency == y.postings@[i].document_frequency
        &&& x.postings@[i].squared_norm == y.postings@[i].squared_norm
    } by {
        let term = x.vocabulary@[i];
        assert(y.vocabulary@[i] == term);
        assert(x.vocabulary.has(term) && x.vocabulary.number(term) == i);
        assert(y.vocabulary.has(term) && y.vocabulary.number(term) == i);
        assert(x.postings@[i].wf() && y.postings@[i].wf());
        assert(x.postings@[i].is_normalized() && y.postings@[i].is_normalized());
        x.postings@[i].lemma_document_frequency_counts_documents();
        y.postings@[i].lemma_document_frequency_counts_documents();
        assert forall|d: DocId|
            x.postings@[i]@.dom().contains(d) == y.postings@[i]@.dom().contains(d) && (
            x.postings@[i]@.dom().contains(d) ==> x.postings@[i]@[d] == y.postings@[i]@[d]) by {
            assert(x.frequency(term, d) == term_count(documents, a.excluded(), term, d));
            assert(y.frequency(term, d) == term_count(documents, a.excluded(), term, d));
        }
        assert(x.postings@[i]@ =~= y.postings@[i]@);
        lemma_postings_determined(x.postings@[i].dimension_map@, y.postings@[i].dimension_map@);
    }
    assert(a.document_lengths@ =~= b.document_lengths@);
}

/// A document of which every token is a stop word, or a punctuation token,
/// adds nothing to the counts of the index, nor to its terms.
pub proof fn lemma_excluded_document_counts_nothing(
    documents: Seq<DocumentView>,
    excluded: Set<Seq<char>>,
    k: int,
    term: Seq<char>,
    doc_id: DocId,
)
    requires
        0 <= k < documents.len(),
        forall|i: int|
            0 <= i < documents[k].tokens.len() ==> excluded.contains(
                #[trigger] documents[k].tokens[i],
            ),
    ensures
        term_count(documents, excluded, term, doc_id) == term_count(
            documents.remove(k),
            excluded,
            term,
            doc_id,
        ),
        corpus_terms(documents, excluded) == corpus_terms(documents.remove(k), excluded),
    decreases documents.len(),
{
    if k == documents.len() - 1 {
        assert(documents.remove(k) =~= documents.drop_last());
        lemma_surviving_none(documents[k].tokens, excluded);
        assert(corpus_terms(documents, excluded) =~= corpus_terms(
            documents.drop_last(),
            excluded,
        ));
    } else {
        let rest = documents.remove(k);
        assert(rest.drop_last() =~= documents.drop_last().remove(k));
        assert(rest.last() == documents.last());
        lemma_excluded_document_counts_nothing(documents.drop_last(), excluded, k, term, doc_id);
    }
}

} // verus!
