//! What is read for the index: the tokens of a document, put in lowercase;
//! the names of the documents, which give their numbers; and the word
//! lists, one word to the line.

use crate::indexing::BuildError;
use crate::posting_list::DocId;
use crate::words::{lowercase_tokens, lowercased, token_views};
use vstd::hash_set::StringHashSet;
use vstd::prelude::*;
use vstd::seq_lib::{to_multiset_build, to_multiset_insert};
use vstd::std_specs::iter::IteratorSpec;

verus! {

/// Why a text could not be tokenized.
#[derive(Debug)]
pub struct TokenizeError {
    /// The tokenizer's own description of the failure.
    pub message: String,
}

/// The tokens of a document, in lowercase, from what the tokenizer made of
/// its text: either the tokens as the tokenizer gave them, or the
/// tokenizer's description of its failure, which is passed on.
pub fn tokenize_document(encoded: &Result<Vec<String>, String>) -> (tokens: Result<
    Vec<String>,
    TokenizeError,
>)
    ensures
        match *encoded {
            Ok(raw) => tokens matches Ok(lower) && lower@.len() == raw@.len() && token_views(
                lower@,
            ) == lowercased(token_views(raw@)),
            Err(message) => tokens matches Err(e) && e.message == message,
        },
{
    match encoded {
        Ok(raw) => Ok(lowercase_tokens(raw)),
        Err(message) => Err(TokenizeError { message: message.clone() }),
    }
}

/// The characters of a text.
pub fn chars_of(text: &str) -> (chars: Vec<char>)
    ensures
        chars@ == text@,
{
    let mut chars: Vec<char> = Vec::new();
    for c in it: text.chars()
        invariant
            chars@ == it.seq().take(it.index() as int),
            it.seq() == text@,
    {
        chars.push(c);
    }
    chars
}

/// `n` characters stand before the first dot of `name`, or before its end
/// where it has no dot.
pub open spec fn is_stem_len(name: Seq<char>, n: int) -> bool {
    &&& 0 <= n <= name.len()
    &&& forall|i: int| 0 <= i < n ==> name[i] != '.'
    &&& n < name.len() ==> name[n] == '.'
}

/// The part of a file name before its first dot.
pub open spec fn stem(name: Seq<char>) -> Seq<char> {
    name.take(choose|n: int| is_stem_len(name, n))
}

/// A decimal digit.
pub open spec fn is_digit(c: char) -> bool {
    '0' <= c <= '9'
}

/// The number that decimal digits stand for.
pub open spec fn decimal(digits: Seq<char>) -> nat
    decreases digits.len(),
{
    if digits.len() == 0 {
        0
    } else {
        decimal(digits.drop_last()) * 10 + (digits.last() as u32 - '0' as u32) as nat
    }
}

/// The digits of a number written with or without a plus sign.
pub open spec fn unsigned(text: Seq<char>) -> Seq<char> {
    if text.len() > 0 && text[0] == '+' {
        text.skip(1)
    } else {
        text
    }
}

/// The number of the document in the file `name`: what stands before the
/// first dot of the name, read as a decimal number. There is none where
/// that is not a number, or too large a one.
pub open spec fn document_id(name: Seq<char>) -> Option<DocId> {
    let digits = unsigned(stem(name));
    if digits.len() > 0 && (forall|i: int| 0 <= i < digits.len() ==> is_digit(digits[i]))
        && decimal(digits) <= usize::MAX {
        Some(decimal(digits) as usize)
    } else {
        None
    }
}

/// Only one length is that of the stem.
pub proof fn lemma_stem_len(name: Seq<char>, n: int)
    requires
        is_stem_len(name, n),
    ensures
        stem(name) == name.take(n),
{
    let m = choose|m: int| is_stem_len(name, m);
    if m < n {
        assert(name[m] != '.');
    }
    if n < m {
        assert(name[n] != '.');
    }
}

/// More digits stand for no smaller a number.
pub proof fn lemma_decimal_grows(digits: Seq<char>, n: int)
    requires
        0 <= n <= digits.len(),
        forall|i: int| 0 <= i < digits.len() ==> is_digit(digits[i]),
    ensures
        decimal(digits.take(n)) <= decimal(digits),
    decreases digits.len(),
{
    if n == digits.len() {
        assert(digits.take(n) =~= digits);
    } else {
        assert(digits.take(n) =~= digits.drop_last().take(n));
        lemma_decimal_grows(digits.drop_last(), n);
    }
}

/// Reads the number of a document from the name of its file.
pub fn parse_document_id(name: &str) -> (id: Option<DocId>)
    ensures
        id == document_id(name@),
{
    let chars = chars_of(name);
    let mut end: usize = 0;
    while end < chars.len() && chars[end] != '.'
        invariant
            end <= chars@.len(),
            forall|i: int| 0 <= i < end ==> chars@[i] != '.',
        decreases chars@.len() - end,
    {
        end += 1;
    }
    proof {
        lemma_stem_len(name@, end as int);
    }
    let start: usize = if end > 0 && chars[0] == '+' {
        1
    } else {
        0
    };
    let ghost digits = unsigned(stem(name@));
    proof {
        assert(digits =~= chars@.subrange(start as int, end as int));
    }
    if start == end {
        return None;
    }
    let mut value: usize = 0;
    let mut k: usize = start;
    proof {
        assert(digits.take(0) =~= Seq::empty());
    }
    while k < end
        invariant
            start <= k <= end <= chars@.len(),
            digits == chars@.subrange(start as int, end as int),
            digits == unsigned(stem(name@)),
            forall|i: int| 0 <= i < k - start ==> is_digit(digits[i]),
            value == decimal(digits.take(k - start)),
        decreases end - k,
    {
        let c = chars[k];
        proof {
            assert(digits[k - start] == c);
            assert(digits.take(k - start + 1).drop_last() =~= digits.take(k - start));
        }
        if !('0' <= c && c <= '9') {
            assert(!is_digit(digits[k - start]));
            return None;
        }
        let ghost next = digits.take(k - start + 1);
        assert(next.last() == c);
        assert(decimal(next) == value * 10 + (c as u32 - '0' as u32));
        let digit: usize = (c as u32 - '0' as u32) as usize;
        let grown = match value.checked_mul(10) {
            Some(tens) => tens.checked_add(digit),
            None => None,
        };
        match grown {
            Some(grown) => {
                value = grown;
            },
            None => {
                proof {
                    if forall|i: int| 0 <= i < digits.len() ==> is_digit(digits[i]) {
                        lemma_decimal_grows(digits, k - start + 1);
                        assert(decimal(digits) > usize::MAX);
                    }
                }
                return None;
            },
        }
        k += 1;
    }
    proof {
        assert(digits.take(k - start) =~= digits);
    }
    Some(value)
}

/// The names are in order of the numbers of their documents.
pub open spec fn numbers_ascending(names: Seq<Seq<char>>) -> bool {
    forall|i: int, j: int|
        0 <= i < j < names.len() ==> document_id(names[i]) is Some && document_id(
            names[j],
        ) is Some && document_id(names[i])->0 <= document_id(names[j])->0
}

/// The names of the documents numbered `number`, in their order.
pub open spec fn numbered(names: Seq<Seq<char>>, number: DocId) -> Seq<Seq<char>> {
    names.filter(|name: Seq<char>| document_id(name) == Some(number))
}

/// One more name is among those of its own number only.
pub proof fn lemma_numbered_push(names: Seq<Seq<char>>, name: Seq<char>, number: DocId)
    ensures
        numbered(names.push(name), number) == if document_id(name) == Some(number) {
            numbered(names, number).push(name)
        } else {
            numbered(names, number)
        },
{
    names.lemma_filter_push(name, |name: Seq<char>| document_id(name) == Some(number));
}

/// A name put behind all names of its number is the last of that number,
/// and leaves the names of the other numbers as they were.
pub proof fn lemma_numbered_insert(
    names: Seq<Seq<char>>,
    place: int,
    name: Seq<char>,
    number: DocId,
)
    requires
        0 <= place <= names.len(),
        forall|k: int| place <= k < names.len() ==> document_id(names[k]) != document_id(name),
    ensures
        numbered(names.insert(place, name), number) == if document_id(name) == Some(number) {
            numbered(names, number).push(name)
        } else {
            numbered(names, number)
        },
    decreases names.len(),
{
    if place == names.len() {
        assert(names.insert(place, name) =~= names.push(name));
        lemma_numbered_push(names, name, number);
    } else {
        let rest = names.drop_last();
        let last = names.last();
        assert(names.insert(place, name) =~= rest.insert(place, name).push(last));
        assert(names =~= rest.push(last));
        lemma_numbered_insert(rest, place, name, number);
        lemma_numbered_push(rest.insert(place, name), last, number);
        lemma_numbered_push(rest, last, number);
    }
}

/// The texts of strings with one more string put among them.
pub proof fn lemma_token_views_insert(tokens: Seq<String>, place: int, token: String)
    requires
        0 <= place <= tokens.len(),
    ensures
        token_views(tokens.insert(place, token)) == token_views(tokens).insert(place, token@),
{
    assert(token_views(tokens.insert(place, token)) =~= token_views(tokens).insert(
        place,
        token@,
    ));
}

/// Puts the names of the document files in the order of the numbers of
/// their documents. Fails at the first name that gives no number.
pub fn get_document_names(names: Vec<String>) -> (sorted: Result<Vec<String>, BuildError>)
    ensures
        match sorted {
            Ok(sorted) => {
                &&& token_views(sorted@).to_multiset() == token_views(names@).to_multiset()
                &&& numbers_ascending(token_views(sorted@))
                &&& forall|n: DocId| #[trigger]
                    numbered(token_views(sorted@), n) == numbered(token_views(names@), n)
                &&& forall|i: int| 0 <= i < names@.len() ==> document_id(names@[i]@) is Some
            },
            Err(e) => {
                &&& e matches BuildError::InvalidDocumentName { position }
                &&& position < names@.len()
                &&& document_id(names@[position as int]@) is None
                &&& forall|i: int| 0 <= i < position ==> document_id(names@[i]@) is Some
            },
        },
{
    let mut sorted: Vec<String> = Vec::new();
    let mut numbers: Vec<DocId> = Vec::new();
    let mut i: usize = 0;
    proof {
        assert(token_views(names@.take(0)) =~= token_views(sorted@));
    }
    while i < names.len()
        invariant
            i <= names@.len(),
            numbers@.len() == sorted@.len(),
            forall|k: int|
                0 <= k < sorted@.len() ==> document_id(#[trigger] sorted@[k]@) == Some(
                    numbers@[k],
                ),
            forall|a: int, b: int| 0 <= a < b < numbers@.len() ==> numbers@[a] <= numbers@[b],
            token_views(sorted@).to_multiset() == token_views(
                names@.take(i as int),
            ).to_multiset(),
            forall|n: DocId| #[trigger]
                numbered(token_views(sorted@), n) == numbered(
                    token_views(names@.take(i as int)),
                    n,
                ),
            forall|k: int| 0 <= k < i ==> document_id(names@[k]@) is Some,
        decreases names@.len() - i,
    {
        let number = match parse_document_id(names[i].as_str()) {
            Some(number) => number,
            None => {
                return Err(BuildError::InvalidDocumentName { position: i });
            },
        };
        let mut place: usize = numbers.len();
        while place > 0 && numbers[place - 1] > number
            invariant
                place <= numbers@.len(),
                forall|k: int| place <= k < numbers@.len() ==> numbers@[k] > number,
            decreases place,
        {
            place -= 1;
        }
        let name = names[i].clone();
        let ghost listed = sorted@;
        let ghost held = numbers@;
        numbers.insert(place, number);
        sorted.insert(place, name);
        proof {
            lemma_token_views_insert(listed, place as int, name);
            to_multiset_insert(token_views(listed), place as int, name@);
            assert forall|k: int| place <= k < listed.len() implies document_id(
                token_views(listed)[k],
            ) != document_id(name@) by {
                assert(document_id(listed[k]@) == Some(held[k]));
            }
            assert forall|n: DocId| #[trigger]
                numbered(token_views(sorted@), n) == numbered(
                    token_views(names@.take(i + 1)),
                    n,
                ) by {
                lemma_numbered_insert(token_views(listed), place as int, name@, n);
                lemma_numbered_push(token_views(names@.take(i as int)), name@, n);
                assert(token_views(names@.take(i + 1)) =~= token_views(
                    names@.take(i as int),
                ).push(name@));
            }
            assert(names@.take(i + 1) =~= names@.take(i as int).push(names@[i as int]));
            crate::words::lemma_token_views_push(names@.take(i as int), names@[i as int]);
            to_multiset_build(token_views(names@.take(i as int)), names@[i as int]@);
            assert forall|a: int, b: int| 0 <= a < b < numbers@.len() implies numbers@[a]
                <= numbers@[b] by {
                if a < place && b > place {
                    assert(held[a] <= held[place - 1]);
                }
            }
            assert forall|k: int| 0 <= k < sorted@.len() implies document_id(
                #[trigger] sorted@[k]@,
            ) == Some(numbers@[k]) by {
                if k < place {
                    assert(sorted@[k] == listed[k]);
                } else if k > place {
                    assert(sorted@[k] == listed[k - 1]);
                }
            }
        }
        i += 1;
    }
    proof {
        assert(names@.take(i as int) =~= names@);
        let views = token_views(sorted@);
        assert forall|a: int, b: int| 0 <= a < b < views.len() implies document_id(
            views[a],
        ) is Some && document_id(views[b]) is Some && document_id(views[a])->0 <= document_id(
            views[b],
        )->0 by {
            assert(document_id(sorted@[a]@) == Some(numbers@[a]));
            assert(document_id(sorted@[b]@) == Some(numbers@[b]));
        }
    }
    Ok(sorted)
}

/// A line without the carriage return at its end, if it has one.
pub open spec fn without_return(line: Seq<char>) -> Seq<char> {
    if line.len() > 0 && line.last() == '\r' {
        line.drop_last()
    } else {
        line
    }
}

/// A text read from its start: the lines that a line feed has ended, and
/// what stands after the last line feed.
pub open spec fn read_lines(text: Seq<char>) -> (Seq<Seq<char>>, Seq<char>)
    decreases text.len(),
{
    if text.len() == 0 {
        (Seq::empty(), Seq::empty())
    } else {
        let (ended, open) = read_lines(text.drop_last());
        if text.last() == '\n' {
            (ended.push(without_return(open)), Seq::empty())
        } else {
            (ended, open.push(text.last()))
        }
    }
}

/// The lines of a text. A line ends with a line feed, or with a carriage
/// return and a line feed, which are not part of it; the last line may end
/// with the text.
pub open spec fn lines(text: Seq<char>) -> Seq<Seq<char>> {
    let (ended, open) = read_lines(text);
    if open.len() > 0 {
        ended.push(open)
    } else {
        ended
    }
}

/// The lines of `contents`, in order.
pub fn split_lines(contents: &str) -> (found: Vec<String>)
    ensures
        token_views(found@) == lines(contents@),
{
    let chars = chars_of(contents);
    let mut found: Vec<String> = Vec::new();
    let mut start: usize = 0;
    let mut i: usize = 0;
    proof {
        assert(contents@.take(0) =~= Seq::empty());
        assert(token_views(found@) =~= Seq::empty());
        assert(contents@.subrange(0, 0) =~= Seq::empty());
    }
    while i < chars.len()
        invariant
            start <= i <= chars@.len(),
            chars@ == contents@,
            read_lines(contents@.take(i as int)) == (
                token_views(found@),
                contents@.subrange(start as int, i as int),
            ),
        decreases chars@.len() - i,
    {
        let ghost listed = found@;
        proof {
            assert(contents@.take(i + 1).drop_last() =~= contents@.take(i as int));
        }
        if chars[i] == '\n' {
            let end: usize = if start < i && chars[i - 1] == '\r' {
                (i - 1) as usize
            } else {
                i
            };
            let line = contents.substring_char(start, end).to_owned();
            found.push(line);
            proof {
                let open = contents@.subrange(start as int, i as int);
                assert(without_return(open) =~= contents@.subrange(start as int, end as int));
                crate::words::lemma_token_views_push(listed, line);
                assert(contents@.subrange(i + 1, i + 1) =~= Seq::empty());
            }
            start = i + 1;
        } else {
            proof {
                assert(contents@.subrange(start as int, i + 1) =~= contents@.subrange(
                    start as int,
                    i as int,
                ).push(contents@[i as int]));
            }
        }
        i += 1;
    }
    proof {
        assert(contents@.take(i as int) =~= contents@);
    }
    if start < i {
        let ghost listed = found@;
        let line = contents.substring_char(start, i).to_owned();
        found.push(line);
        proof {
            crate::words::lemma_token_views_push(listed, line);
        }
    }
    found
}

/// The words of a word list with the text `contents`: its lines.
pub fn get_words(contents: &str) -> (words: StringHashSet)
    ensures
        words@ == lines(contents@).to_set(),
{
    let found = split_lines(contents);
    let ghost all = token_views(found@);
    let mut words = StringHashSet::new();
    let mut i: usize = 0;
    proof {
        assert(all.take(0).to_set() =~= Set::empty());
    }
    while i < found.len()
        invariant
            i <= found@.len(),
            all == token_views(found@),
            words@ == all.take(i as int).to_set(),
        decreases found@.len() - i,
    {
        words.insert(found[i].clone());
        proof {
            assert(all.take(i + 1) =~= all.take(i as int).push(all[i as int]));
            all.take(i as int).lemma_push_to_set_commute(all[i as int]);
        }
        i += 1;
    }
    proof {
        assert(all.take(i as int) =~= all);
    }
    words
}

} // verus!
