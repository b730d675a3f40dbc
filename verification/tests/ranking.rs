use vsm::ranking::{outranks, rank_documents, ScoredDocument, MAX_RESULTS};

fn scored(doc_id: usize, score: u64) -> ScoredDocument {
    ScoredDocument { doc_id, score }
}

#[test]
fn ranking_is_by_score_then_by_document() {
    let candidates = vec![scored(1, 5), scored(2, 9), scored(3, 5), scored(4, 7)];
    assert_eq!(
        rank_documents(&candidates),
        vec![scored(2, 9), scored(4, 7), scored(1, 5), scored(3, 5)]
    );
}

#[test]
fn ties_are_broken_by_ascending_document() {
    let candidates = vec![scored(9, 4), scored(3, 4), scored(6, 4), scored(1, 4)];
    assert_eq!(
        rank_documents(&candidates),
        vec![scored(1, 4), scored(3, 4), scored(6, 4), scored(9, 4)]
    );
}

#[test]
fn zero_scores_are_left_out() {
    let candidates = vec![scored(1, 0), scored(2, 3), scored(3, 0)];
    assert_eq!(rank_documents(&candidates), vec![scored(2, 3)]);
}

#[test]
fn ranking_of_nothing_is_empty() {
    assert!(rank_documents(&Vec::new()).is_empty());
    assert!(rank_documents(&vec![scored(1, 0)]).is_empty());
}

#[test]
fn at_most_ten_results() {
    assert_eq!(MAX_RESULTS, 10);
    let candidates: Vec<ScoredDocument> = (1..=12).map(|i| scored(i as usize, i as u64)).collect();
    let top = rank_documents(&candidates);
    let expected: Vec<ScoredDocument> =
        (3..=12).rev().map(|i| scored(i as usize, i as u64)).collect();
    assert_eq!(top, expected);
}

#[test]
fn exactly_ten_and_eleven_candidates() {
    let ten: Vec<ScoredDocument> = (1..=10).map(|i| scored(i as usize, 100 - i as u64)).collect();
    assert_eq!(rank_documents(&ten), ten);
    let mut eleven = ten.clone();
    eleven.insert(0, scored(11, 1));
    assert_eq!(rank_documents(&eleven), ten);
    let mut best_last = ten.clone();
    best_last.push(scored(11, 1000));
    let top = rank_documents(&best_last);
    assert_eq!(top.len(), 10);
    assert_eq!(top[0], scored(11, 1000));
    assert_eq!(top[9], scored(9, 91));
}

#[test]
fn three_matches_give_three_results() {
    let candidates = vec![scored(3, 1), scored(1, 2), scored(2, 3)];
    assert_eq!(rank_documents(&candidates), vec![scored(2, 3), scored(1, 2), scored(3, 1)]);
}

#[test]
fn ranking_does_not_depend_on_the_order_of_the_candidates() {
    let a = vec![scored(1, 5), scored(2, 9), scored(3, 5), scored(4, 0), scored(5, 2)];
    let b = vec![scored(5, 2), scored(4, 0), scored(3, 5), scored(2, 9), scored(1, 5)];
    assert_eq!(rank_documents(&a), rank_documents(&b));
    assert_eq!(rank_documents(&a), vec![scored(2, 9), scored(1, 5), scored(3, 5), scored(5, 2)]);
}

#[test]
fn ranking_many_candidates_keeps_the_best() {
    let candidates: Vec<ScoredDocument> =
        (0..100).map(|i| scored(i as usize, ((i * 37) % 101) as u64)).collect();
    let top = rank_documents(&candidates);
    let mut all: Vec<ScoredDocument> = candidates.iter().copied().filter(|c| c.score != 0).collect();
    all.sort_by(|a, b| b.score.cmp(&a.score).then(a.doc_id.cmp(&b.doc_id)));
    all.truncate(10);
    assert_eq!(top, all);
}

#[test]
fn outranks_is_strict() {
    assert!(outranks(&scored(1, 5), &scored(2, 4)));
    assert!(!outranks(&scored(2, 4), &scored(1, 5)));
    assert!(outranks(&scored(1, 5), &scored(2, 5)));
    assert!(!outranks(&scored(2, 5), &scored(1, 5)));
    assert!(!outranks(&scored(1, 5), &scored(1, 5)));
}

#[test]
fn float_scores_order_by_their_bits() {
    let scores = [0.871f64, 0.385, 0.243, 0.0];
    let candidates: Vec<ScoredDocument> = scores
        .iter()
        .enumerate()
        .map(|(i, s)| scored(10 - i, s.to_bits()))
        .rev()
        .collect();
    let top = rank_documents(&candidates);
    let found: Vec<f64> = top.iter().map(|s| f64::from_bits(s.score)).collect();
    assert_eq!(found, vec![0.871, 0.385, 0.243]);
}
