//! The lexical filter: which tokens of a text count as terms.

use vstd::hash_set::StringHashSet;
use vstd::prelude::*;

verus! {

/// The texts of a sequence of strings.
pub open spec fn token_views(tokens: Seq<String>) -> Seq<Seq<char>> {
    Seq::new(tokens.len(), |i: int| tokens[i]@)
}

/// The tokens that are not excluded, in their order.
pub open spec fn surviving(tokens: Seq<Seq<char>>, excluded: Set<Seq<char>>) -> Seq<Seq<char>> {
    tokens.filter(|t: Seq<char>| !excluded.contains(t))
}

/// How often `term` stands among `tokens`.
pub open spec fn occurrences(tokens: Seq<Seq<char>>, term: Seq<char>) -> nat
    decreases tokens.len(),
{
    if tokens.len() == 0 {
        0
    } else {
        occurrences(tokens.drop_last(), term) + if tokens.last() == term {
            1nat
        } else {
            0nat
        }
    }
}

/// The different tokens, each at the place of its first occurrence.
pub open spec fn distinct_terms(tokens: Seq<Seq<char>>) -> Seq<Seq<char>>
    decreases tokens.len(),
{
    if tokens.len() == 0 {
        Seq::empty()
    } else {
        let earlier = distinct_terms(tokens.drop_last());
        if earlier.contains(tokens.last()) {
            earlier
        } else {
            earlier.push(tokens.last())
        }
    }
}

/// The lowercase form that `str::to_lowercase` gives to a text.
pub uninterp spec fn lowercase(text: Seq<char>) -> Seq<char>;

/// Each token in lowercase.
pub open spec fn lowercased(tokens: Seq<Seq<char>>) -> Seq<Seq<char>> {
    Seq::new(tokens.len(), |i: int| lowercase(tokens[i]))
}

/// The texts of strings with one more string behind them.
pub proof fn lemma_token_views_push(tokens: Seq<String>, token: String)
    ensures
        token_views(tokens.push(token)) == token_views(tokens).push(token@),
{
    assert(token_views(tokens.push(token)) =~= token_views(tokens).push(token@));
}

/// One more token is put in lowercase by itself.
pub proof fn lemma_lowercased_push(tokens: Seq<Seq<char>>, token: Seq<char>)
    ensures
        lowercased(tokens.push(token)) == lowercased(tokens).push(lowercase(token)),
{
    assert(lowercased(tokens.push(token)) =~= lowercased(tokens).push(lowercase(token)));
}

/// One more token survives exactly if it is not excluded.
pub proof fn lemma_surviving_push(
    tokens: Seq<Seq<char>>,
    token: Seq<char>,
    excluded: Set<Seq<char>>,
)
    ensures
        surviving(tokens.push(token), excluded) == if excluded.contains(token) {
            surviving(tokens, excluded)
        } else {
            surviving(tokens, excluded).push(token)
        },
{
    tokens.lemma_filter_push(token, |t: Seq<char>| !excluded.contains(t));
}

/// Of no tokens none survives.
pub proof fn lemma_surviving_empty(excluded: Set<Seq<char>>)
    ensures
        surviving(Seq::empty(), excluded) == Seq::<Seq<char>>::empty(),
{
    reveal(Seq::filter);
}

/// Where every token is excluded none survives.
pub proof fn lemma_surviving_none(tokens: Seq<Seq<char>>, excluded: Set<Seq<char>>)
    requires
        forall|i: int| 0 <= i < tokens.len() ==> excluded.contains(#[trigger] tokens[i]),
    ensures
        surviving(tokens, excluded) == Seq::<Seq<char>>::empty(),
    decreases tokens.len(),
{
    if tokens.len() == 0 {
        lemma_surviving_empty(excluded);
        assert(tokens =~= Seq::empty());
    } else {
        lemma_surviving_none(tokens.drop_last(), excluded);
        lemma_surviving_push(tokens.drop_last(), tokens.last(), excluded);
        assert(tokens.drop_last().push(tokens.last()) =~= tokens);
    }
}

/// What one more token does to the count of a term.
pub proof fn lemma_occurrences_push(tokens: Seq<Seq<char>>, token: Seq<char>, term: Seq<char>)
    ensures
        occurrences(tokens.push(token), term) == occurrences(tokens, term) + if token == term {
            1nat
        } else {
            0nat
        },
{
    assert(tokens.push(token).drop_last() =~= tokens);
}

/// What one more token does to the different terms.
pub proof fn lemma_distinct_terms_push(tokens: Seq<Seq<char>>, token: Seq<char>)
    ensures
        distinct_terms(tokens.push(token)) == if distinct_terms(tokens).contains(token) {
            distinct_terms(tokens)
        } else {
            distinct_terms(tokens).push(token)
        },
{
    assert(tokens.push(token).drop_last() =~= tokens);
}

/// The different terms are those that occur.
pub proof fn lemma_distinct_terms_occur(tokens: Seq<Seq<char>>, term: Seq<char>)
    ensures
        distinct_terms(tokens).contains(term) <==> occurrences(tokens, term) > 0,
    decreases tokens.len(),
{
    if tokens.len() > 0 {
        let earlier = distinct_terms(tokens.drop_last());
        lemma_distinct_terms_occur(tokens.drop_last(), term);
        if !earlier.contains(tokens.last()) {
            let all = earlier.push(tokens.last());
            assert(all[earlier.len() as int] == tokens.last());
            if all.contains(term) && term != tokens.last() {
                let i = choose|i: int| 0 <= i < all.len() && all[i] == term;
                assert(earlier[i] == term);
            }
            if earlier.contains(term) {
                let i = choose|i: int| 0 <= i < earlier.len() && earlier[i] == term;
                assert(all[i] == term);
            }
        }
    }
}

/// Runs `str::to_lowercase` on `text`. The result is what `lowercase` names:
/// the lowercase form that the standard library gives to the text, which
/// depends on the text alone.
#[verifier::external_body]
fn to_lowercase(text: &str) -> (lower: String)
    ensures
        lower@ == lowercase(text@),
{
    text.to_lowercase()
}

/// Each token in lowercase, in the same order.
pub fn lowercase_tokens(tokens: &Vec<String>) -> (lower: Vec<String>)
    ensures
        lower@.len() == tokens@.len(),
        token_views(lower@) == lowercased(token_views(tokens@)),
{
    let mut lower: Vec<String> = Vec::new();
    let mut i: usize = 0;
    while i < tokens.len()
        invariant
            i <= tokens@.len(),
            lower@.len() == i,
            token_views(lower@) == lowercased(token_views(tokens@).take(i as int)),
        decreases tokens@.len() - i,
    {
        let ghost before = lower@;
        let token = to_lowercase(tokens[i].as_str());
        lower.push(token);
        proof {
            let views = token_views(tokens@);
            assert(views.take(i + 1) =~= views.take(i as int).push(views[i as int]));
            lemma_lowercased_push(views.take(i as int), views[i as int]);
            lemma_token_views_push(before, token);
        }
        i += 1;
    }
    assert(token_views(tokens@).take(i as int) =~= token_views(tokens@));
    lower
}

/// Whether a token counts as a term: it is neither a stop word nor a
/// punctuation token.
pub fn is_term(token: &str, stop_words: &StringHashSet, punctuations: &StringHashSet) -> (kept:
    bool)
    ensures
        kept == !stop_words@.union(punctuations@).contains(token@),
{
    !stop_words.contains(token) && !punctuations.contains(token)
}

/// Removes the stop words and the punctuation tokens from `tokens`.
pub fn filter_tokens(
    tokens: &Vec<String>,
    stop_words: &StringHashSet,
    punctuations: &StringHashSet,
) -> (kept: Vec<String>)
    ensures
        token_views(kept@) == surviving(
            token_views(tokens@),
            stop_words@.union(punctuations@),
        ),
{
    let ghost excluded = stop_words@.union(punctuations@);
    let ghost views = token_views(tokens@);
    let mut kept: Vec<String> = Vec::new();
    let mut i: usize = 0;
    proof {
        lemma_surviving_empty(excluded);
        assert(views.take(0) =~= Seq::empty());
        assert(token_views(kept@) =~= Seq::empty());
    }
    while i < tokens.len()
        invariant
            i <= tokens@.len(),
            views == token_views(tokens@),
            excluded == stop_words@.union(punctuations@),
            token_views(kept@) == surviving(views.take(i as int), excluded),
        decreases tokens@.len() - i,
    {
        proof {
            assert(views.take(i + 1) =~= views.take(i as int).push(views[i as int]));
            lemma_surviving_push(views.take(i as int), views[i as int], excluded);
        }
        if is_term(tokens[i].as_str(), stop_words, punctuations) {
            let ghost before = kept@;
            let token = tokens[i].clone();
            kept.push(token);
            proof {
                lemma_token_views_push(before, token);
            }
        }
        i += 1;
    }
    assert(views.take(i as int) =~= views);
    kept
}

} // verus!
