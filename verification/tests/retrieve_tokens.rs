use std::str::FromStr;
use tokenizers::Tokenizer;
use vsm::indexing::{build_index, BuildError, TokenizedFile};
use vsm::query::{count_terms, parse_query};
use vsm::retrieve_tokens::{
    chars_of, get_document_names, get_words, parse_document_id, split_lines, tokenize_document,
};
use vsm::words::{filter_tokens, is_term, lowercase_tokens};

fn names(list: &[&str]) -> Vec<String> {
    list.iter().map(|n| n.to_string()).collect()
}

fn word_tokenizer(unknown: &str) -> Tokenizer {
    let json = format!(
        "{{\"version\":\"1.0\",\"pre_tokenizer\":{{\"type\":\"WhitespaceSplit\"}},\
         \"model\":{{\"type\":\"WordLevel\",\"vocab\":{{\"[UNK]\":0,\"The\":1,\"the\":2,\
         \"Cat\":3,\"cat\":4,\"sat\":5,\"dog\":6,\"DOG\":7}},\"unk_token\":\"{}\"}}}}",
        unknown
    );
    Tokenizer::from_str(&json).unwrap()
}

fn encode(tokenizer: &Tokenizer, text: &str) -> Result<Vec<String>, String> {
    match tokenizer.encode(text, false) {
        Ok(encoding) => Ok(encoding.get_tokens().to_vec()),
        Err(e) => Err(e.to_string()),
    }
}

fn file(tokenizer: &Tokenizer, name: &str, contents: &str) -> TokenizedFile {
    TokenizedFile { name: name.to_string(), encoded: encode(tokenizer, contents) }
}

fn given(name: &str, tokens: &[&str]) -> TokenizedFile {
    TokenizedFile { name: name.to_string(), encoded: Ok(names(tokens)) }
}

#[test]
fn lists_file_names() {
    let paths = get_document_names(names(&["3.txt", "1.txt", "2.txt"]));
    println!("{:?}", paths);
    assert_eq!(paths.unwrap(), names(&["1.txt", "2.txt", "3.txt"]));
}

#[test]
fn test_tokenize_document() {
    let tokenizer = word_tokenizer("[UNK]");
    let tokens =
        tokenize_document(&encode(&tokenizer, "The Cat sat")).expect("Could not tokenize");
    assert_eq!(tokens, names(&["the", "cat", "sat"]));
}

#[test]
fn tokenize_document_reports_the_failure_of_the_tokenizer() {
    let tokenizer = word_tokenizer("[MISSING]");
    let failed = tokenize_document(&encode(&tokenizer, "the bird sat"));
    assert!(failed.is_err());
    assert!(failed.err().unwrap().message.contains("[UNK]"));
}

#[test]
fn tokens_are_put_in_lowercase_and_a_refusal_is_passed_on() {
    let tokens = tokenize_document(&Ok(names(&["The", "CAT", "sat", "the"]))).unwrap();
    assert_eq!(tokens, names(&["the", "cat", "sat", "the"]));
    assert!(tokenize_document(&Ok(Vec::new())).unwrap().is_empty());
    let refused = tokenize_document(&Err("no such model".to_string()));
    assert_eq!(refused.err().unwrap().message, "no such model");
    let silent = tokenize_document(&Err(String::new()));
    assert_eq!(silent.err().unwrap().message, "");
}

#[test]
fn document_names_are_sorted_by_number_not_by_text() {
    let sorted = get_document_names(names(&["10.txt", "9.txt", "100.txt", "1.txt"])).unwrap();
    assert_eq!(sorted, names(&["1.txt", "9.txt", "10.txt", "100.txt"]));
}

#[test]
fn document_names_with_one_number_keep_their_order() {
    let sorted = get_document_names(names(&["2.b", "1.txt", "2.a", "02.c"])).unwrap();
    assert_eq!(sorted, names(&["1.txt", "2.b", "2.a", "02.c"]));
}

#[test]
fn invalid_document_name_is_reported_with_its_position() {
    let failed = get_document_names(names(&["1.txt", "2.txt", "notes.txt", "x"]));
    assert!(matches!(failed, Err(BuildError::InvalidDocumentName { position: 2 })));
}

#[test]
fn no_document_names() {
    assert!(get_document_names(Vec::new()).unwrap().is_empty());
}

#[test]
fn document_numbers() {
    assert_eq!(parse_document_id("1.txt"), Some(1));
    assert_eq!(parse_document_id("42"), Some(42));
    assert_eq!(parse_document_id("007.txt"), Some(7));
    assert_eq!(parse_document_id("+5.txt"), Some(5));
    assert_eq!(parse_document_id("12.tar.gz"), Some(12));
    assert_eq!(parse_document_id("0.txt"), Some(0));
}

#[test]
fn names_without_a_document_number() {
    assert_eq!(parse_document_id(""), None);
    assert_eq!(parse_document_id(".txt"), None);
    assert_eq!(parse_document_id("a.txt"), None);
    assert_eq!(parse_document_id("1a.txt"), None);
    assert_eq!(parse_document_id("-1.txt"), None);
    assert_eq!(parse_document_id("+.txt"), None);
    assert_eq!(parse_document_id("+"), None);
    assert_eq!(parse_document_id("1 .txt"), None);
    assert_eq!(parse_document_id("++1.txt"), None);
}

#[test]
fn document_numbers_agree_with_the_standard_parser() {
    for name in ["1.txt", "+5.x", "", "a", "99999999999999999999999.txt", "0012", "1_0", "٣.txt"] {
        let stem = name.split('.').next().unwrap();
        assert_eq!(parse_document_id(name), stem.parse::<usize>().ok());
    }
}

#[test]
fn document_number_at_the_limit() {
    let max = format!("{}.txt", usize::MAX);
    assert_eq!(parse_document_id(&max), Some(usize::MAX));
    let over = format!("{}0.txt", usize::MAX);
    assert_eq!(parse_document_id(&over), None);
    let next = format!("{}.txt", usize::MAX as u128 + 1);
    assert_eq!(parse_document_id(&next), None);
}

#[test]
fn lines_of_a_text() {
    assert_eq!(split_lines("a\nb\r\nc"), names(&["a", "b", "c"]));
    assert_eq!(split_lines("a\n"), names(&["a"]));
    assert_eq!(split_lines(""), Vec::<String>::new());
    assert_eq!(split_lines("\n"), names(&[""]));
    assert_eq!(split_lines("a\n\nb"), names(&["a", "", "b"]));
    assert_eq!(split_lines("x\r\n"), names(&["x"]));
    assert_eq!(split_lines("\r\n"), names(&[""]));
    assert_eq!(split_lines("x\r"), names(&["x\r"]));
    assert_eq!(split_lines("a\r\r\nb"), names(&["a\r", "b"]));
}

#[test]
fn lines_agree_with_the_standard_library() {
    for text in ["the\na\nan\n", "one", "é\nü\r\n\nß", "\n\n", "a\rb\nc", "tab\there\n"] {
        let expected: Vec<String> = text.lines().map(|l| l.to_string()).collect();
        assert_eq!(split_lines(text), expected);
    }
}

#[test]
fn words_of_a_word_list() {
    let words = get_words("the\na\nthe\r\nan");
    assert_eq!(words.len(), 3);
    assert!(words.contains("the"));
    assert!(words.contains("a"));
    assert!(words.contains("an"));
    assert!(!words.contains("cat"));
    assert!(get_words("").is_empty());
}

#[test]
fn characters_of_a_text() {
    assert_eq!(chars_of("aé.1"), vec!['a', 'é', '.', '1']);
    assert!(chars_of("").is_empty());
}

#[test]
fn lowercase_of_tokens() {
    let lower = lowercase_tokens(&names(&["The", "CAT", "sat", "ÉTÉ", "ß"]));
    assert_eq!(lower, names(&["the", "cat", "sat", "été", "ß"]));
}

#[test]
fn stop_words_and_punctuation_are_no_terms() {
    let stop_words = get_words("the\na");
    let punctuations = get_words(",\n.");
    assert!(is_term("cat", &stop_words, &punctuations));
    assert!(!is_term("the", &stop_words, &punctuations));
    assert!(!is_term(",", &stop_words, &punctuations));
    assert!(is_term("The", &stop_words, &punctuations));
    let kept = filter_tokens(&names(&["the", "cat", ",", "a", "dog", "."]), &stop_words, &punctuations);
    assert_eq!(kept, names(&["cat", "dog"]));
}

#[test]
fn index_is_built_from_files() {
    let tokenizer = word_tokenizer("[UNK]");
    let files = vec![
        file(&tokenizer, "1.txt", "The cat sat"),
        file(&tokenizer, "2.txt", "the DOG sat"),
        file(&tokenizer, "3.txt", "Cat dog cat"),
    ];
    let data = build_index(&files, get_words("the"), get_words("")).unwrap();
    assert_eq!(data.normalized_index.vocabulary.terms, names(&["cat", "sat", "dog"]));
    assert_eq!(data.total_tokens_count, 7);
    let cat = data.postings("cat").unwrap();
    assert_eq!(cat.document_frequency, 2);
    assert_eq!(cat.squared_norm, 5);
    assert_eq!(data.document_frequency("dog"), 2);
    assert_eq!(data.document_lengths.get(&3), Some(&3));
}

#[test]
fn index_is_built_from_given_tokens() {
    let files = vec![
        given("2.txt", &["B", "a", "the"]),
        given("10.txt", &["A", "b", "b"]),
        given("+3.md", &[]),
    ];
    let data = build_index(&files, get_words("the"), get_words("")).unwrap();
    assert_eq!(data.normalized_index.vocabulary.terms, names(&["b", "a"]));
    assert_eq!(data.total_tokens_count, 5);
    let b: Vec<(usize, usize)> = data
        .postings("b")
        .unwrap()
        .dimension_map
        .iter()
        .map(|p| (p.doc_id, p.term_frequency))
        .collect();
    assert_eq!(b, vec![(2, 1), (10, 2)]);
    assert_eq!(data.postings("b").unwrap().squared_norm, 5);
    assert_eq!(data.document_lengths.get(&3), Some(&0));
    assert_eq!(data.document_lengths.get(&10), Some(&3));
    assert!(build_index(&Vec::new(), get_words("the"), get_words("")).is_ok());
}

#[test]
fn build_fails_at_a_name_without_a_number() {
    let tokenizer = word_tokenizer("[UNK]");
    let files =
        vec![file(&tokenizer, "1.txt", "the cat"), file(&tokenizer, "readme.txt", "the dog")];
    let failed = build_index(&files, get_words("the"), get_words(""));
    assert!(matches!(failed, Err(BuildError::InvalidDocumentName { position: 1 })));
}

#[test]
fn build_fails_where_the_tokenizer_fails() {
    let tokenizer = word_tokenizer("[MISSING]");
    let files = vec![
        file(&tokenizer, "1.txt", "the cat"),
        file(&tokenizer, "2.txt", "the cat"),
        file(&tokenizer, "3.txt", "a bird"),
    ];
    match build_index(&files, get_words("the"), get_words("")) {
        Err(BuildError::Tokenize { position, message }) => {
            assert_eq!(position, 2);
            assert!(message.contains("[UNK]"));
        }
        _ => panic!("the build went on past a refusal"),
    }
}

#[test]
fn build_fails_at_the_first_file_that_gives_no_document() {
    let refused = |name: &str| TokenizedFile {
        name: name.to_string(),
        encoded: Err("refused".to_string()),
    };
    let files = vec![given("1.txt", &["a"]), refused("2.txt"), given("x.txt", &["b"])];
    match build_index(&files, get_words(""), get_words("")) {
        Err(BuildError::Tokenize { position, message }) => {
            assert_eq!(position, 1);
            assert_eq!(message, "refused");
        }
        _ => panic!("expected the refusal at the second file"),
    }
    let files = vec![given("1.txt", &["a"]), given("x.txt", &["b"]), refused("3.txt")];
    let failed = build_index(&files, get_words(""), get_words(""));
    assert!(matches!(failed, Err(BuildError::InvalidDocumentName { position: 1 })));
    let files = vec![refused("x.txt")];
    let failed = build_index(&files, get_words(""), get_words(""));
    assert!(matches!(failed, Err(BuildError::InvalidDocumentName { position: 0 })));
}

#[test]
fn query_is_parsed_with_the_tokenizer() {
    let tokenizer = word_tokenizer("[UNK]");
    let files =
        vec![file(&tokenizer, "1.txt", "The cat sat"), file(&tokenizer, "2.txt", "the DOG sat")];
    let data = build_index(&files, get_words("the"), get_words("")).unwrap();
    let query = parse_query(encode(&tokenizer, "The DOG Cat dog"), &data).unwrap();
    assert_eq!(query.vocabulary.terms, names(&["dog", "cat"]));
    assert_eq!(query.frequencies, vec![2, 1]);
    let refused = parse_query(encode(&word_tokenizer("[MISSING]"), "a bird"), &data);
    assert!(refused.err().unwrap().message.contains("[UNK]"));
}

#[test]
fn query_is_parsed_from_given_tokens() {
    let data = build_index(&vec![given("1.txt", &["cat"])], get_words("the"), get_words("!"))
        .unwrap();
    let query = parse_query(Ok(names(&["Cat", "the", "!", "dog", "CAT"])), &data).unwrap();
    assert_eq!(query.vocabulary.terms, names(&["cat", "dog"]));
    assert_eq!(query.frequencies, vec![2, 1]);
    let refused = parse_query(Err("refused".to_string()), &data);
    assert_eq!(refused.err().unwrap().message, "refused");
}

#[test]
fn terms_are_counted_as_they_are_given() {
    let tokens = names(&["Cat", "cat", "the", "dog", "cat", ",", "Cat", "cat"]);
    let query = count_terms(&tokens, &get_words("the"), &get_words(","));
    assert_eq!(query.vocabulary.terms, names(&["Cat", "cat", "dog"]));
    assert_eq!(query.frequencies, vec![2, 3, 1]);
    let none = count_terms(&names(&["the", ","]), &get_words("the"), &get_words(","));
    assert!(none.vocabulary.terms.is_empty());
    assert!(none.frequencies.is_empty());
    let empty = count_terms(&Vec::new(), &get_words("the"), &get_words(","));
    assert!(empty.frequencies.is_empty());
}
