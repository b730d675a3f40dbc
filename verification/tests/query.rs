use vsm::indexing::{index_documents, Document, IndexData};
use vsm::query::{get_query_map, match_documents, DocumentMatch, QueryVector, TermMatch};
use vsm::ranking::{rank_documents, ScoredDocument};
use vsm::retrieve_tokens::get_words;

fn document(doc_id: usize, text: &str) -> Document {
    Document { doc_id, tokens: text.split_whitespace().map(|t| t.to_string()).collect() }
}

fn cats_and_dogs() -> IndexData {
    let documents =
        vec![document(1, "the cat sat"), document(2, "the dog sat"), document(3, "cat dog cat")];
    index_documents(&documents, get_words("the"), get_words("")).unwrap()
}

fn query(data: &IndexData, text: &str) -> QueryVector {
    let raw: Vec<String> = text.split_whitespace().map(|t| t.to_string()).collect();
    get_query_map(raw, &data.stop_words, &data.punctuations)
}

fn relevance(found: &DocumentMatch, total: usize) -> f64 {
    found
        .terms
        .iter()
        .map(|t| {
            let weight = t.term_frequency as f64 / (t.squared_norm as f64).sqrt();
            let idf = (total as f64 / t.document_frequency as f64).log10();
            weight * (t.query_frequency as f64 * idf)
        })
        .sum()
}

fn search(data: &IndexData, text: &str) -> Vec<(usize, f64)> {
    let matches = match_documents(data, &query(data, text));
    let candidates: Vec<ScoredDocument> = matches
        .iter()
        .map(|m| ScoredDocument {
            doc_id: m.doc_id,
            score: relevance(m, data.total_tokens_count).to_bits(),
        })
        .collect();
    rank_documents(&candidates).iter().map(|s| (s.doc_id, f64::from_bits(s.score))).collect()
}

#[test]
fn query_terms_are_counted() {
    let data = cats_and_dogs();
    let vector = query(&data, "cat dog cat");
    assert_eq!(vector.vocabulary.terms, vec!["cat", "dog"]);
    assert_eq!(vector.frequencies, vec![2, 1]);
}

#[test]
fn query_is_lowercased_and_filtered() {
    let data = cats_and_dogs();
    let vector = query(&data, "The Cat CAT dog THE");
    assert_eq!(vector.vocabulary.terms, vec!["cat", "dog"]);
    assert_eq!(vector.frequencies, vec![2, 1]);
}

#[test]
fn query_filters_punctuation() {
    let raw: Vec<String> = ["Cat", ",", "dog", "!"].iter().map(|t| t.to_string()).collect();
    let vector = get_query_map(raw, &get_words("the"), &get_words(",\n!"));
    assert_eq!(vector.vocabulary.terms, vec!["cat", "dog"]);
    assert_eq!(vector.frequencies, vec![1, 1]);
}

#[test]
fn query_of_stop_words_only_is_empty() {
    let data = cats_and_dogs();
    let vector = query(&data, "the The THE");
    assert!(vector.vocabulary.terms.is_empty());
    assert!(vector.frequencies.is_empty());
    assert!(match_documents(&data, &vector).is_empty());
    assert!(search(&data, "the The THE").is_empty());
}

#[test]
fn matches_hold_what_the_scores_need() {
    let data = cats_and_dogs();
    let matches = match_documents(&data, &query(&data, "cat dog"));
    assert_eq!(matches.len(), 3);
    assert_eq!(matches[0].doc_id, 1);
    assert_eq!(
        matches[0].terms,
        vec![TermMatch {
            query_frequency: 1,
            document_frequency: 2,
            term_frequency: 1,
            squared_norm: 5
        }]
    );
    assert_eq!(matches[1].doc_id, 2);
    assert_eq!(
        matches[1].terms,
        vec![TermMatch {
            query_frequency: 1,
            document_frequency: 2,
            term_frequency: 1,
            squared_norm: 2
        }]
    );
    assert_eq!(matches[2].doc_id, 3);
    assert_eq!(
        matches[2].terms,
        vec![
            TermMatch {
                query_frequency: 1,
                document_frequency: 2,
                term_frequency: 2,
                squared_norm: 5
            },
            TermMatch {
                query_frequency: 1,
                document_frequency: 2,
                term_frequency: 1,
                squared_norm: 2
            },
        ]
    );
}

#[test]
fn matches_carry_the_query_frequency() {
    let data = cats_and_dogs();
    let matches = match_documents(&data, &query(&data, "sat sat sat"));
    assert_eq!(matches.len(), 2);
    assert_eq!(matches[0].doc_id, 1);
    assert_eq!(matches[1].doc_id, 2);
    for found in &matches {
        assert_eq!(
            found.terms,
            vec![TermMatch {
                query_frequency: 3,
                document_frequency: 2,
                term_frequency: 1,
                squared_norm: 2
            }]
        );
    }
}

#[test]
fn end_to_end_query_ranks_document_three_first() {
    let data = cats_and_dogs();
    let found = search(&data, "cat dog");
    assert_eq!(found.len(), 3);
    assert_eq!(found[0].0, 3);
    assert_eq!(found[1].0, 2);
    assert_eq!(found[2].0, 1);
    let idf = (7f64 / 2f64).log10();
    assert!((found[0].1 - (2.0 / 5f64.sqrt() + 1.0 / 2f64.sqrt()) * idf).abs() < 1e-12);
    assert!((found[1].1 - (1.0 / 2f64.sqrt()) * idf).abs() < 1e-12);
    assert!((found[2].1 - (1.0 / 5f64.sqrt()) * idf).abs() < 1e-12);
}

#[test]
fn same_query_twice_gives_the_same_ranking() {
    let data = cats_and_dogs();
    let first = search(&data, "dog sat cat");
    let second = search(&data, "dog sat cat");
    assert_eq!(first.len(), 3);
    assert_eq!(first, second);
}

#[test]
fn unknown_terms_give_an_empty_result() {
    let data = cats_and_dogs();
    let vector = query(&data, "bird fish");
    assert_eq!(vector.vocabulary.terms, vec!["bird", "fish"]);
    assert!(match_documents(&data, &vector).is_empty());
    assert!(search(&data, "bird fish").is_empty());
}

#[test]
fn unknown_terms_are_skipped_beside_known_ones() {
    let data = cats_and_dogs();
    let with = match_documents(&data, &query(&data, "bird dog fish"));
    let without = match_documents(&data, &query(&data, "dog"));
    assert_eq!(with.len(), 2);
    assert_eq!(with.len(), without.len());
    for (a, b) in with.iter().zip(&without) {
        assert_eq!(a.doc_id, b.doc_id);
        assert_eq!(a.terms, b.terms);
    }
}

#[test]
fn fewer_matches_than_the_limit_are_all_returned() {
    let data = cats_and_dogs();
    let found = search(&data, "cat dog sat");
    assert_eq!(found.len(), 3);
    let mut documents: Vec<usize> = found.iter().map(|f| f.0).collect();
    documents.sort();
    assert_eq!(documents, vec![1, 2, 3]);
}

#[test]
fn query_on_a_single_document_corpus() {
    let documents = vec![document(1, "red green red")];
    let data = index_documents(&documents, get_words(""), get_words("")).unwrap();
    let found = search(&data, "red");
    assert_eq!(found.len(), 1);
    assert_eq!(found[0].0, 1);
    let expected = (2.0 / 4f64.sqrt()) * (3f64 / 1f64).log10();
    assert!((found[0].1 - expected).abs() < 1e-12);
}
