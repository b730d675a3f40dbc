use vsm::posting_list::{Posting, PostingList};

#[test]
fn new_list_is_empty() {
    let list = PostingList::new();
    assert_eq!(list.document_frequency, 0);
    assert!(list.dimension_map.is_empty());
    assert_eq!(list.squared_norm, 1);
}

#[test]
fn with_doc_id_counts_one_occurrence() {
    let list = PostingList::with_doc_id(7);
    assert_eq!(list.document_frequency, 1);
    assert_eq!(list.dimension_map, vec![Posting { doc_id: 7, term_frequency: 1 }]);
    assert_eq!(list.squared_norm, 1);
}

#[test]
fn document_frequency_counts_documents_not_occurrences() {
    let mut list = PostingList::with_doc_id(1);
    list.record_occurrence(1);
    list.record_occurrence(1);
    assert_eq!(list.document_frequency, 1);
    assert_eq!(list.dimension_map, vec![Posting { doc_id: 1, term_frequency: 3 }]);
    list.record_occurrence(3);
    list.record_occurrence(3);
    assert_eq!(list.document_frequency, 2);
    assert_eq!(list.document_frequency, list.dimension_map.len());
    assert_eq!(
        list.dimension_map,
        vec![Posting { doc_id: 1, term_frequency: 3 }, Posting { doc_id: 3, term_frequency: 2 }]
    );
}

#[test]
fn postings_stay_in_order_of_document() {
    let mut list = PostingList::new();
    list.record_occurrence(5);
    list.record_occurrence(2);
    list.record_occurrence(9);
    list.record_occurrence(2);
    list.record_occurrence(7);
    assert_eq!(
        list.dimension_map,
        vec![
            Posting { doc_id: 2, term_frequency: 2 },
            Posting { doc_id: 5, term_frequency: 1 },
            Posting { doc_id: 7, term_frequency: 1 },
            Posting { doc_id: 9, term_frequency: 1 },
        ]
    );
    assert_eq!(list.document_frequency, 4);
}

#[test]
fn normalize_sets_the_squared_norm() {
    let mut list = PostingList::with_doc_id(1);
    list.record_occurrence(3);
    list.record_occurrence(3);
    list.normalize();
    assert_eq!(list.squared_norm, 5);
    assert_eq!(list.document_frequency, 2);
    assert_eq!(
        list.dimension_map,
        vec![Posting { doc_id: 1, term_frequency: 1 }, Posting { doc_id: 3, term_frequency: 2 }]
    );
}

#[test]
fn normalized_weights_have_unit_length() {
    let mut list = PostingList::new();
    for (doc_id, times) in [(1usize, 3usize), (2, 4), (8, 12)] {
        for _ in 0..times {
            list.record_occurrence(doc_id);
        }
    }
    list.normalize();
    assert_eq!(list.squared_norm, 9 + 16 + 144);
    let norm = (list.squared_norm as f64).sqrt();
    let length: f64 = list
        .dimension_map
        .iter()
        .map(|p| (p.term_frequency as f64 / norm) * (p.term_frequency as f64 / norm))
        .sum::<f64>()
        .sqrt();
    assert!((length - 1.0).abs() < 1e-9);
}

#[test]
fn normalize_twice_changes_nothing() {
    let mut list = PostingList::with_doc_id(4);
    list.record_occurrence(4);
    list.record_occurrence(6);
    list.normalize();
    let norm = list.squared_norm;
    let postings = list.dimension_map.clone();
    list.normalize();
    assert_eq!(list.squared_norm, norm);
    assert_eq!(list.dimension_map, postings);
}

#[test]
fn normalize_of_an_empty_list() {
    let mut list = PostingList::new();
    list.normalize();
    assert_eq!(list.squared_norm, 0);
    assert_eq!(list.document_frequency, 0);
}

#[test]
fn occurrences_are_found_and_counted() {
    let mut list = PostingList::new();
    for doc_id in [4usize, 2, 4, 8, 4, 6, 2] {
        list.record_occurrence(doc_id);
    }
    assert_eq!(list.count_occurrences(), 7);
    assert_eq!(list.term_frequency(2), 2);
    assert_eq!(list.term_frequency(4), 3);
    assert_eq!(list.term_frequency(6), 1);
    assert_eq!(list.term_frequency(8), 1);
    assert_eq!(list.term_frequency(1), 0);
    assert_eq!(list.term_frequency(5), 0);
    assert_eq!(list.term_frequency(9), 0);
    assert_eq!(PostingList::new().term_frequency(0), 0);
    assert_eq!(PostingList::new().count_occurrences(), 0);
}
