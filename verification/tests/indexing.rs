use vsm::indexing::{index_documents, BuildError, Document, IndexBuilder, IndexData};
use vsm::posting_list::Posting;
use vsm::retrieve_tokens::get_words;

fn document(doc_id: usize, text: &str) -> Document {
    Document { doc_id, tokens: text.split_whitespace().map(|t| t.to_string()).collect() }
}

fn cats_and_dogs() -> Vec<Document> {
    vec![document(1, "the cat sat"), document(2, "the dog sat"), document(3, "cat dog cat")]
}

fn build(documents: &Vec<Document>, stop_words: &str) -> IndexData {
    index_documents(documents, get_words(stop_words), get_words("")).unwrap()
}

fn postings(data: &IndexData, term: &str) -> Vec<(usize, usize)> {
    match data.postings(term) {
        Some(list) => list.dimension_map.iter().map(|p| (p.doc_id, p.term_frequency)).collect(),
        None => Vec::new(),
    }
}

#[test]
fn end_to_end_postings() {
    let data = build(&cats_and_dogs(), "the");
    assert_eq!(postings(&data, "cat"), vec![(1, 1), (3, 2)]);
    assert_eq!(postings(&data, "dog"), vec![(2, 1), (3, 1)]);
    assert_eq!(postings(&data, "sat"), vec![(1, 1), (2, 1)]);
    assert!(data.postings("the").is_none());
    assert_eq!(data.normalized_index.vocabulary.terms, vec!["cat", "sat", "dog"]);
}

#[test]
fn end_to_end_normalized_weights() {
    let data = build(&cats_and_dogs(), "the");
    let cat = data.postings("cat").unwrap();
    assert_eq!(cat.squared_norm, 5);
    let norm = (cat.squared_norm as f64).sqrt();
    let weights: Vec<(usize, f64)> =
        cat.dimension_map.iter().map(|p| (p.doc_id, p.term_frequency as f64 / norm)).collect();
    assert_eq!(weights.len(), 2);
    assert_eq!(weights[0].0, 1);
    assert!((weights[0].1 - 1.0 / 5f64.sqrt()).abs() < 1e-12);
    assert_eq!(weights[1].0, 3);
    assert!((weights[1].1 - 2.0 / 5f64.sqrt()).abs() < 1e-12);
    assert_eq!(data.postings("dog").unwrap().squared_norm, 2);
    assert_eq!(data.postings("sat").unwrap().squared_norm, 2);
}

#[test]
fn document_frequency_equals_entries_of_dimension_map() {
    let documents = vec![
        document(1, "a a a b"),
        document(2, "b b c a"),
        document(3, "c c c c"),
        document(4, "a b c d d"),
    ];
    let data = build(&documents, "");
    for list in &data.normalized_index.postings {
        assert_eq!(list.document_frequency, list.dimension_map.len());
    }
    assert_eq!(data.document_frequency("a"), 3);
    assert_eq!(data.document_frequency("b"), 3);
    assert_eq!(data.document_frequency("c"), 3);
    assert_eq!(data.document_frequency("d"), 1);
    assert_eq!(postings(&data, "a"), vec![(1, 3), (2, 1), (4, 1)]);
    assert_eq!(postings(&data, "d"), vec![(4, 2)]);
}

#[test]
fn every_posting_list_has_unit_length() {
    let documents =
        vec![document(1, "x y y z z z"), document(2, "x x y"), document(5, "z x z x z")];
    let data = build(&documents, "");
    assert!(!data.normalized_index.postings.is_empty());
    for list in &data.normalized_index.postings {
        let squares: u128 = list
            .dimension_map
            .iter()
            .map(|p| (p.term_frequency as u128) * (p.term_frequency as u128))
            .sum();
        assert_eq!(list.squared_norm, squares);
        let norm = (list.squared_norm as f64).sqrt();
        let length: f64 = list
            .dimension_map
            .iter()
            .map(|p| (p.term_frequency as f64 / norm).powi(2))
            .sum::<f64>()
            .sqrt();
        assert!((length - 1.0).abs() < 1e-9);
    }
}

#[test]
fn lengths_and_total_count_terms() {
    let data = build(&cats_and_dogs(), "the");
    assert_eq!(data.total_tokens_count, 7);
    assert_eq!(data.document_lengths.len(), 3);
    assert_eq!(data.document_lengths.get(&1), Some(&2));
    assert_eq!(data.document_lengths.get(&2), Some(&2));
    assert_eq!(data.document_lengths.get(&3), Some(&3));
}

#[test]
fn building_twice_gives_the_same_index() {
    let first = build(&cats_and_dogs(), "the");
    let second = build(&cats_and_dogs(), "the");
    assert_eq!(first.normalized_index.vocabulary.terms, second.normalized_index.vocabulary.terms);
    assert_eq!(first.normalized_index.postings.len(), second.normalized_index.postings.len());
    for (a, b) in first.normalized_index.postings.iter().zip(&second.normalized_index.postings) {
        assert_eq!(a.document_frequency, b.document_frequency);
        assert_eq!(a.dimension_map, b.dimension_map);
        assert_eq!(a.squared_norm, b.squared_norm);
    }
    assert_eq!(first.document_lengths, second.document_lengths);
    assert_eq!(first.total_tokens_count, second.total_tokens_count);
}

#[test]
fn stopword_only_document_adds_no_postings() {
    let with = vec![document(1, "the cat sat"), document(2, "the a the"), document(3, "cat dog")];
    let without = vec![document(1, "the cat sat"), document(3, "cat dog")];
    let a = build(&with, "the\na");
    let b = build(&without, "the\na");
    assert_eq!(a.normalized_index.vocabulary.terms, b.normalized_index.vocabulary.terms);
    for term in ["cat", "sat", "dog"] {
        assert_eq!(postings(&a, term), postings(&b, term));
    }
    for list in &a.normalized_index.postings {
        assert!(list.dimension_map.iter().all(|p| p.doc_id != 2));
    }
    assert_eq!(a.total_tokens_count, b.total_tokens_count);
    assert_eq!(a.document_lengths.get(&2), Some(&0));
}

#[test]
fn single_document_corpus() {
    let data = build(&vec![document(4, "to be or not to be")], "");
    assert_eq!(data.normalized_index.vocabulary.terms, vec!["to", "be", "or", "not"]);
    for term in ["to", "be", "or", "not"] {
        assert_eq!(data.document_frequency(term), 1);
    }
    assert_eq!(data.total_tokens_count, 6);
    assert_eq!(postings(&data, "to"), vec![(4, 2)]);
    assert_eq!(data.postings("to").unwrap().squared_norm, 4);
    let idf = (data.total_tokens_count as f64 / data.document_frequency("to") as f64).log10();
    assert!(idf.is_finite());
    assert!((idf - 6f64.log10()).abs() < 1e-12);
}

#[test]
fn empty_corpus() {
    let data = build(&Vec::new(), "the");
    assert!(data.normalized_index.vocabulary.terms.is_empty());
    assert!(data.normalized_index.postings.is_empty());
    assert_eq!(data.total_tokens_count, 0);
    assert!(data.document_lengths.is_empty());
    assert_eq!(data.document_frequency("cat"), 0);
}

#[test]
fn unknown_term_has_document_frequency_zero() {
    let data = build(&cats_and_dogs(), "the");
    assert_eq!(data.document_frequency("bird"), 0);
    assert_eq!(data.document_frequency("the"), 0);
    assert!(data.postings("bird").is_none());
}

#[test]
fn punctuation_tokens_are_left_out() {
    let documents = vec![document(1, "cat , dog . cat !")];
    let data = index_documents(&documents, get_words(""), get_words(",\n.\n!")).unwrap();
    assert_eq!(data.normalized_index.vocabulary.terms, vec!["cat", "dog"]);
    assert_eq!(data.total_tokens_count, 3);
}

#[test]
fn documents_out_of_order_and_with_one_number() {
    let documents = vec![document(9, "b a"), document(2, "a"), document(9, "a a")];
    let data = build(&documents, "");
    assert_eq!(postings(&data, "a"), vec![(2, 1), (9, 3)]);
    assert_eq!(postings(&data, "b"), vec![(9, 1)]);
    assert_eq!(data.document_frequency("a"), 2);
    assert_eq!(data.document_lengths.get(&9), Some(&2));
    assert_eq!(data.total_tokens_count, 5);
}

#[test]
fn builder_takes_documents_one_by_one() {
    let mut builder = IndexBuilder::new(get_words("the"), get_words(""));
    for d in cats_and_dogs() {
        assert!(builder.add_document(d.doc_id, &d.tokens).is_ok());
    }
    assert_eq!(builder.total_tokens_count, 7);
    for list in &builder.index.postings {
        assert_eq!(list.squared_norm, 1);
    }
    let data = builder.finish();
    assert_eq!(postings(&data, "cat"), vec![(1, 1), (3, 2)]);
    assert_eq!(data.postings("cat").unwrap().squared_norm, 5);
    assert_eq!(
        data.postings("cat").unwrap().dimension_map[1],
        Posting { doc_id: 3, term_frequency: 2 }
    );
}

#[test]
fn build_error_names_its_cause() {
    let e = BuildError::InvalidDocumentName { position: 3 };
    assert!(matches!(e, BuildError::InvalidDocumentName { position: 3 }));
    assert!(!matches!(e, BuildError::TooManyTokens));
}
