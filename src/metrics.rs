use vstd::prelude::*;
use crate::distance::{
    edit_distance, edit_distance_of, positional_distance, positional_distance_of,
    subsequence_distance, subsequence_distance_of,
};
use crate::distance_laws::{
    lemma_edit_distance_reflexive, lemma_edit_distance_symmetric, lemma_edit_distance_triangle,
    lemma_edit_distance_zero_means_equal, lemma_positional_distance_reflexive,
    lemma_positional_distance_symmetric, lemma_positional_distance_triangle,
    lemma_positional_distance_zero_means_equal, lemma_subsequence_distance_reflexive,
    lemma_subsequence_distance_symmetric, lemma_subsequence_distance_triangle,
    lemma_subsequence_distance_zero_means_equal,
};
use crate::spell_checker::{SpellChecker, rank, scored, words_of};
use crate::text::chars_of;

verus! {

/// Edit (Levenshtein) distance: insertions, deletions and substitutions.
#[derive(Clone, Copy, Debug)]
pub struct Levenshtein {
    pub default_matches: usize,
}

impl Levenshtein {
    pub fn new(default_matches: usize) -> (r: Self)
        ensures
            r.default_matches == default_matches,
    {
        Levenshtein { default_matches }
    }
}

impl SpellChecker for Levenshtein {
    open spec fn spec_distance(&self, word: Seq<char>, target: Seq<char>) -> nat {
        edit_distance(word, target)
    }

    open spec fn spec_default_matches(&self) -> nat {
        self.default_matches as nat
    }

    fn distance(&self, word: &str, target: &str) -> (r: usize) {
        edit_distance_of(&chars_of(word), &chars_of(target))
    }

    fn get_matches(&self, dictionary: &Vec<String>, word: &str) -> (r: Vec<(usize, String)>) {
        let r = rank(&Checker::Levenshtein(*self), dictionary, word, self.default_matches);
        proof {
            assert(scored(words_of(dictionary@), |w: Seq<char>| self.spec_distance(word@, w))
                =~= scored(
                words_of(dictionary@),
                |w: Seq<char>| Checker::Levenshtein(*self).spec_distance(word@, w),
            ));
        }
        r
    }
}

/// Subsequence distance: the characters of both strings outside a longest
/// common subsequence.
#[derive(Clone, Copy, Debug)]
pub struct Lcs {
    pub default_matches: usize,
}

impl Lcs {
    pub fn new(default_matches: usize) -> (r: Self)
        ensures
            r.default_matches == default_matches,
    {
        Lcs { default_matches }
    }
}

impl SpellChecker for Lcs {
    open spec fn spec_distance(&self, word: Seq<char>, target: Seq<char>) -> nat {
        subsequence_distance(word, target)
    }

    open spec fn spec_default_matches(&self) -> nat {
        self.default_matches as nat
    }

    fn distance(&self, word: &str, target: &str) -> (r: usize) {
        subsequence_distance_of(&chars_of(word), &chars_of(target))
    }

    fn get_matches(&self, dictionary: &Vec<String>, word: &str) -> (r: Vec<(usize, String)>) {
        let r = rank(&Checker::Lcs(*self), dictionary, word, self.default_matches);
        proof {
            assert(scored(words_of(dictionary@), |w: Seq<char>| self.spec_distance(word@, w))
                =~= scored(
                words_of(dictionary@),
                |w: Seq<char>| Checker::Lcs(*self).spec_distance(word@, w),
            ));
        }
        r
    }
}

/// Positional (Hamming) distance, with `usize::MAX` for strings of different lengths.
#[derive(Clone, Copy, Debug)]
pub struct Hamming {
    pub default_matches: usize,
}

impl Hamming {
    pub fn new(default_matches: usize) -> (r: Self)
        ensures
            r.default_matches == default_matches,
    {
        Hamming { default_matches }
    }
}

impl SpellChecker for Hamming {
    open spec fn spec_distance(&self, word: Seq<char>, target: Seq<char>) -> nat {
        positional_distance(word, target)
    }

    open spec fn spec_default_matches(&self) -> nat {
        self.default_matches as nat
    }

    fn distance(&self, word: &str, target: &str) -> (r: usize) {
        positional_distance_of(&chars_of(word), &chars_of(target))
    }

    fn get_matches(&self, dictionary: &Vec<String>, word: &str) -> (r: Vec<(usize, String)>) {
        let r = rank(&Checker::Hamming(*self), dictionary, word, self.default_matches);
        proof {
            assert(scored(words_of(dictionary@), |w: Seq<char>| self.spec_distance(word@, w))
                =~= scored(
                words_of(dictionary@),
                |w: Seq<char>| Checker::Hamming(*self).spec_distance(word@, w),
            ));
        }
        r
    }
}

/// One of the three metrics, chosen when a tree is configured.
#[derive(Clone, Copy, Debug)]
pub enum Checker {
    Levenshtein(Levenshtein),
    Lcs(Lcs),
    Hamming(Hamming),
}

impl SpellChecker for Checker {
    open spec fn spec_distance(&self, word: Seq<char>, target: Seq<char>) -> nat {
        match self {
            Checker::Levenshtein(_) => edit_distance(word, target),
            Checker::Lcs(_) => subsequence_distance(word, target),
            Checker::Hamming(_) => positional_distance(word, target),
        }
    }

    open spec fn spec_default_matches(&self) -> nat {
        match self {
            Checker::Levenshtein(c) => c.default_matches as nat,
            Checker::Lcs(c) => c.default_matches as nat,
            Checker::Hamming(c) => c.default_matches as nat,
        }
    }

    fn distance(&self, word: &str, target: &str) -> (r: usize) {
        let a = chars_of(word);
        let b = chars_of(target);
        match self {
            Checker::Levenshtein(_) => edit_distance_of(&a, &b),
            Checker::Lcs(_) => subsequence_distance_of(&a, &b),
            Checker::Hamming(_) => positional_distance_of(&a, &b),
        }
    }

    fn get_matches(&self, dictionary: &Vec<String>, word: &str) -> (r: Vec<(usize, String)>) {
        let k = match self {
            Checker::Levenshtein(c) => c.default_matches,
            Checker::Lcs(c) => c.default_matches,
            Checker::Hamming(c) => c.default_matches,
        };
        rank(self, dictionary, word, k)
    }
}

/// Every metric puts a string at distance zero from itself, the empty string included.
pub proof fn lemma_distance_reflexive(checker: Checker, x: Seq<char>)
    ensures
        checker.spec_distance(x, x) == 0,
{
    match checker {
        Checker::Levenshtein(_) => lemma_edit_distance_reflexive(x),
        Checker::Lcs(_) => lemma_subsequence_distance_reflexive(x),
        Checker::Hamming(_) => lemma_positional_distance_reflexive(x),
    }
}

/// Every metric is symmetric, the "incomparable" value of the positional one included.
pub proof fn lemma_distance_symmetric(checker: Checker, a: Seq<char>, b: Seq<char>)
    ensures
        checker.spec_distance(a, b) == checker.spec_distance(b, a),
{
    match checker {
        Checker::Levenshtein(_) => lemma_edit_distance_symmetric(a, b),
        Checker::Lcs(_) => lemma_subsequence_distance_symmetric(a, b),
        Checker::Hamming(_) => lemma_positional_distance_symmetric(a, b),
    }
}

/// Edit distance and subsequence distance obey the triangle inequality.
pub proof fn lemma_distance_triangle(checker: Checker, a: Seq<char>, b: Seq<char>, c: Seq<char>)
    requires
        checker is Levenshtein || checker is Lcs,
    ensures
        checker.spec_distance(a, c) <= checker.spec_distance(a, b) + checker.spec_distance(b, c),
{
    match checker {
        Checker::Levenshtein(_) => lemma_edit_distance_triangle(a, b, c),
        Checker::Lcs(_) => lemma_subsequence_distance_triangle(a, b, c),
        Checker::Hamming(_) => {},
    }
}

/// On strings that fit in memory every metric obeys the triangle inequality, the
/// positional one too once its "incomparable" value is read as an integer.
pub proof fn lemma_distance_triangle_in_memory(
    checker: Checker,
    a: Seq<char>,
    b: Seq<char>,
    c: Seq<char>,
)
    requires
        a.len() <= usize::MAX,
        b.len() <= usize::MAX,
        c.len() <= usize::MAX,
    ensures
        checker.spec_distance(a, c) <= checker.spec_distance(a, b) + checker.spec_distance(b, c),
{
    match checker {
        Checker::Hamming(_) => lemma_positional_distance_triangle(a, b, c),
        _ => lemma_distance_triangle(checker, a, b, c),
    }
}

/// For strings in memory, a word within `r` of the query lies at a distance from
/// any third word `s` that differs by at most `r` from the query's distance to `s`.
pub proof fn lemma_distance_band(checker: Checker, s: Seq<char>, m: Seq<char>, q: Seq<char>, r: int)
    requires
        s.len() <= usize::MAX,
        m.len() <= usize::MAX,
        q.len() <= usize::MAX,
        checker.spec_distance(m, q) <= r,
    ensures
        checker.spec_distance(s, q) - r <= checker.spec_distance(s, m) <= checker.spec_distance(s, q) + r,
{
    lemma_distance_triangle_in_memory(checker, s, m, q);
    lemma_distance_triangle_in_memory(checker, s, q, m);
    lemma_distance_symmetric(checker, m, q);
}

/// Every metric puts distinct strings at a nonzero distance.
pub proof fn lemma_zero_distance_means_equal(checker: Checker, a: Seq<char>, b: Seq<char>)
    requires
        checker.spec_distance(a, b) == 0,
    ensures
        a == b,
{
    match checker {
        Checker::Levenshtein(_) => lemma_edit_distance_zero_means_equal(a, b),
        Checker::Lcs(_) => lemma_subsequence_distance_zero_means_equal(a, b),
        Checker::Hamming(_) => lemma_positional_distance_zero_means_equal(a, b),
    }
}

} // verus!
