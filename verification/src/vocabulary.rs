//! A vocabulary numbers the terms it has seen, in the order in which they
//! first came.

use vstd::hash_map::StringHashMap;
use vstd::prelude::*;

verus! {

/// The terms seen so far. Each has a number: its place in `terms`.
pub struct Vocabulary {
    /// The terms, in the order in which they were first seen.
    pub terms: Vec<String>,
    /// The number of each term.
    pub positions: StringHashMap<usize>,
}

impl View for Vocabulary {
    type V = Seq<Seq<char>>;

    open spec fn view(&self) -> Seq<Seq<char>> {
        Seq::new(self.terms@.len(), |i: int| self.terms@[i]@)
    }
}

impl Vocabulary {
    /// The numbers are the places: a term is numbered exactly if it is
    /// listed, once, and with the place at which it is listed.
    pub open spec fn wf(&self) -> bool {
        &&& forall|i: int|
            0 <= i < self.terms@.len() ==> self.positions@.contains_key(#[trigger] self@[i])
                && self.positions@[self@[i]] == i
        &&& forall|t: Seq<char>| #[trigger]
            self.positions@.contains_key(t) ==> self.positions@[t] < self.terms@.len()
                && self@[self.positions@[t] as int] == t
    }

    /// Whether `term` has a number.
    pub open spec fn has(&self, term: Seq<char>) -> bool {
        self.positions@.contains_key(term)
    }

    /// The number of `term`, if it has one.
    pub open spec fn number(&self, term: Seq<char>) -> int {
        self.positions@[term] as int
    }

    /// The numbered terms are the listed ones, and no term is listed twice.
    pub proof fn lemma_listed(&self)
        requires
            self.wf(),
        ensures
            forall|t: Seq<char>| self.has(t) <==> self@.contains(t),
            self@.no_duplicates(),
            self@.len() == self.terms@.len(),
    {
        assert forall|t: Seq<char>| self.has(t) implies self@.contains(t) by {
            assert(self@[self.number(t)] == t);
        }
        assert forall|t: Seq<char>| self@.contains(t) implies self.has(t) by {
            let i = choose|i: int| 0 <= i < self@.len() && self@[i] == t;
            assert(self.positions@.contains_key(self@[i]));
        }
        assert forall|i: int, j: int| 0 <= i < self@.len() && 0 <= j < self@.len() && i != j
            implies self@[i] != self@[j] by {
            assert(self.positions@[self@[i]] == i);
            assert(self.positions@[self@[j]] == j);
        }
    }

    /// A vocabulary without terms.
    pub fn new() -> (vocabulary: Self)
        ensures
            vocabulary.wf(),
            vocabulary@ == Seq::<Seq<char>>::empty(),
    {
        let vocabulary = Vocabulary { terms: Vec::new(), positions: StringHashMap::new() };
        assert(vocabulary@ =~= Seq::<Seq<char>>::empty());
        vocabulary
    }

    /// How many terms there are.
    pub fn len(&self) -> (n: usize)
        ensures
            n == self@.len(),
    {
        self.terms.len()
    }

    /// The number of `term`, where it has one.
    pub fn lookup(&self, term: &str) -> (found: Option<usize>)
        requires
            self.wf(),
        ensures
            match found {
                Some(i) => self@.contains(term@) && i < self@.len() && self@[i as int] == term@
                    && i == self.number(term@),
                None => !self@.contains(term@),
            },
    {
        proof {
            self.lemma_listed();
        }
        match self.positions.get(term) {
            Some(i) => Some(*i),
            None => None,
        }
    }

    /// The number of `term`, which is listed as the last term if it was not
    /// listed yet.
    pub fn intern(&mut self, term: String) -> (i: usize)
        requires
            old(self).wf(),
        ensures
            final(self).wf(),
            final(self)@ == if old(self)@.contains(term@) {
                old(self)@
            } else {
                old(self)@.push(term@)
            },
            i < final(self)@.len(),
            final(self)@[i as int] == term@,
            old(self)@.contains(term@) ==> i == old(self).number(term@),
            !old(self)@.contains(term@) ==> i == old(self)@.len(),
            final(self).number(term@) == i,
            forall|t: Seq<char>| final(self).has(t) <==> old(self).has(t) || t == term@,
            forall|t: Seq<char>| old(self).has(t) ==> final(self).number(t) == old(self).number(t),
    {
        match self.lookup(term.as_str()) {
            Some(i) => i,
            None => {
                let i = self.terms.len();
                let ghost before = self@;
                proof {
                    self.lemma_listed();
                }
                self.positions.insert(term.clone(), i);
                self.terms.push(term);
                proof {
                    assert(self@ =~= before.push(term@));
                    assert forall|k: int| 0 <= k < self.terms@.len() implies self.positions@.contains_key(
                    #[trigger] self@[k]) && self.positions@[self@[k]] == k by {
                        if k < i {
                            assert(self@[k] == before[k]);
                            assert(old(self).positions@.contains_key(before[k]));
                            assert(before[k] != term@);
                        }
                    }
                    assert forall|t: Seq<char>| #[trigger]
                        self.positions@.contains_key(t) implies self.positions@[t]
                        < self.terms@.len() && self@[self.positions@[t] as int] == t by {
                        if t != term@ {
                            assert(old(self).positions@.contains_key(t));
                            assert(before[old(self).positions@[t] as int] == t);
                        }
                    }
                }
                i
            },
        }
    }
}

} // verus!
