use vstd::prelude::*;
use vstd::string::{StrSliceExecFns, StringExecFns};
use crate::bk_tree::{BKTree, SpellCheckError};
use crate::metrics::{Checker, Hamming, Lcs, Levenshtein};
use crate::text::chars_of;

verus! {

/// Whether `c` has Unicode's Alphabetic property, as `char::is_alphabetic` says.
pub uninterp spec fn is_alphabetic_char(c: char) -> bool;

/// The characters of the uppercase mapping of `c`, as `char::to_uppercase` gives them.
pub uninterp spec fn uppercase_of(c: char) -> Seq<char>;

/// Relies on `char::is_alphabetic`: whether `c` is alphabetic, a property of `c` alone.
#[verifier::external_body]
fn alphabetic(c: char) -> (r: bool)
    ensures
        r == is_alphabetic_char(c),
{
    c.is_alphabetic()
}

/// Relies on `char::to_uppercase`: the uppercase mapping of `c`, a function of `c` alone.
#[verifier::external_body]
fn uppercase(c: char) -> (r: String)
    ensures
        r@ == uppercase_of(c),
{
    c.to_uppercase().collect::<String>()
}

/// Relies on `String::push`: appends `c` to `s`.
#[verifier::external_body]
fn push_char(s: &mut String, c: char)
    ensures
        final(s)@ == old(s)@.push(c),
{
    s.push(c)
}

/// Whether `a` and `b` hold the same characters.
fn same_text(a: &str, b: &str) -> (r: bool)
    ensures
        r == (a@ == b@),
{
    let x = chars_of(a);
    let y = chars_of(b);
    if x.len() != y.len() {
        return false;
    }
    let mut i: usize = 0;
    while i < x.len()
        invariant
            x.len() == y.len(),
            x@ == a@,
            y@ == b@,
            i <= x.len(),
            forall|j: int| 0 <= j < i ==> x@[j] == y@[j],
        decreases x.len() - i,
    {
        if x[i] != y[i] {
            return false;
        }
        i = i + 1;
    }
    assert(x@ =~= y@);
    true
}

/// The metric a configuration names, keeping `top_matches` best matches.
pub open spec fn checker_named(algorithm: Seq<char>, top_matches: usize) -> Option<Checker> {
    if algorithm == "levenshtein"@ {
        Some(Checker::Levenshtein(Levenshtein { default_matches: top_matches }))
    } else if algorithm == "lcs"@ {
        Some(Checker::Lcs(Lcs { default_matches: top_matches }))
    } else if algorithm == "hamming"@ {
        Some(Checker::Hamming(Hamming { default_matches: top_matches }))
    } else {
        None
    }
}

/// An empty tree over the metric named `algorithm` ("levenshtein", "lcs" or
/// "hamming"); any other name is an error, with no fallback.
pub fn bk_factory(algorithm: &str, top_matches: usize) -> (r: Result<BKTree, SpellCheckError>)
    ensures
        match checker_named(algorithm@, top_matches) {
            Some(c) => r is Ok && r->Ok_0.wf() && r->Ok_0@ == Seq::<Seq<char>>::empty()
                && r->Ok_0.checker() == c,
            None => r == Err::<BKTree, SpellCheckError>(SpellCheckError::UnknownAlgorithm),
        },
{
    let spell_checker = if same_text(algorithm, "levenshtein") {
        Checker::Levenshtein(Levenshtein::new(top_matches))
    } else if same_text(algorithm, "lcs") {
        Checker::Lcs(Lcs::new(top_matches))
    } else if same_text(algorithm, "hamming") {
        Checker::Hamming(Hamming::new(top_matches))
    } else {
        return Err(SpellCheckError::UnknownAlgorithm);
    };
    Ok(BKTree::new(spell_checker))
}

/// `word` with its first character replaced by `first_upper`; an empty `word`
/// stays empty.
pub fn capitalize_with(first_upper: &str, word: &str) -> (r: String)
    ensures
        r@ == if word@.len() == 0 {
            Seq::<char>::empty()
        } else {
            first_upper@ + word@.drop_first()
        },
{
    let n = word.unicode_len();
    if n == 0 {
        return String::new();
    }
    let mut r = String::from_str(first_upper);
    let rest = word.substring_char(1, n);
    r.append(rest);
    assert(rest@ =~= word@.drop_first());
    r
}

/// `word` with its first character replaced by that character's uppercase mapping.
pub fn capitalize_first_letter(word: &str) -> (r: String)
    ensures
        r@ == if word@.len() == 0 {
            Seq::<char>::empty()
        } else {
            uppercase_of(word@[0]) + word@.drop_first()
        },
{
    if word.unicode_len() == 0 {
        return String::new();
    }
    let upper = uppercase(word.get_char(0));
    capitalize_with(upper.as_str(), word)
}

/// The characters of `s` whose flag in `keep` is set, in order.
pub open spec fn flagged(s: Seq<char>, keep: Seq<bool>) -> Seq<char>
    decreases s.len(),
{
    if s.len() == 0 {
        s
    } else if keep[s.len() - 1] {
        flagged(s.drop_last(), keep).push(s.last())
    } else {
        flagged(s.drop_last(), keep)
    }
}

/// The characters of `word` whose flag in `keep` is set, in order.
pub fn keep_flagged(word: &str, keep: &Vec<bool>) -> (r: String)
    requires
        keep@.len() == word@.len(),
    ensures
        r@ == flagged(word@, keep@),
{
    let chars = chars_of(word);
    let mut r = String::new();
    let mut i: usize = 0;
    assert(chars@.take(0) =~= Seq::<char>::empty());
    while i < chars.len()
        invariant
            chars@ == word@,
            keep@.len() == word@.len(),
            i <= chars.len(),
            r@ == flagged(chars@.take(i as int), keep@),
        decreases chars.len() - i,
    {
        assert(chars@.take(i + 1).drop_last() =~= chars@.take(i as int));
        if keep[i] {
            push_char(&mut r, chars[i]);
        }
        i = i + 1;
    }
    assert(chars@.take(chars.len() as int) =~= chars@);
    r
}

proof fn lemma_flagged_is_filter(s: Seq<char>, keep: Seq<bool>)
    requires
        keep.len() == s.len(),
        forall|i: int| 0 <= i < s.len() ==> keep[i] == is_alphabetic_char(#[trigger] s[i]),
    ensures
        flagged(s, keep) == s.filter(|c: char| is_alphabetic_char(c)),
    decreases s.len(),
{
    reveal(Seq::filter);
    if s.len() > 0 {
        let k = keep.take(s.len() - 1);
        lemma_flagged_is_filter(s.drop_last(), k);
        lemma_flagged_prefix(s.drop_last(), keep, k);
    }
}

proof fn lemma_flagged_prefix(s: Seq<char>, keep: Seq<bool>, k: Seq<bool>)
    requires
        s.len() <= k.len(),
        k.len() <= keep.len(),
        forall|i: int| 0 <= i < k.len() ==> k[i] == keep[i],
    ensures
        flagged(s, keep) == flagged(s, k),
    decreases s.len(),
{
    if s.len() > 0 {
        lemma_flagged_prefix(s.drop_last(), keep, k);
    }
}

/// The alphabetic characters of `word`, in order.
pub fn filter_alphabet(word: &str) -> (r: String)
    ensures
        r@ == word@.filter(|c: char| is_alphabetic_char(c)),
{
    let chars = chars_of(word);
    let mut keep: Vec<bool> = Vec::new();
    let mut i: usize = 0;
    while i < chars.len()
        invariant
            chars@ == word@,
            i <= chars.len(),
            keep.len() == i,
            forall|j: int| 0 <= j < i ==> keep@[j] == is_alphabetic_char(#[trigger] chars@[j]),
        decreases chars.len() - i,
    {
        keep.push(alphabetic(chars[i]));
        i = i + 1;
    }
    proof {
        lemma_flagged_is_filter(word@, keep@);
    }
    keep_flagged(word, &keep)
}

} // verus!
