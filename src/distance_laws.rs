use vstd::prelude::*;
use crate::distance::{
    edit_distance, lcs_len, lemma_edit_distance_at_most_longer, lemma_lcs_len_at_most_shorter,
    lemma_mismatches_at_most_len, mismatches, positional_distance, subsequence_distance,
};

verus! {

// ---- edit distance ----

/// A string is at edit distance zero from itself.
pub proof fn lemma_edit_distance_reflexive(a: Seq<char>)
    ensures
        edit_distance(a, a) == 0,
    decreases a.len(),
{
    if a.len() > 0 {
        lemma_edit_distance_reflexive(a.drop_last());
    }
}

/// Edit distance does not depend on the order of its arguments.
pub proof fn lemma_edit_distance_symmetric(a: Seq<char>, b: Seq<char>)
    ensures
        edit_distance(a, b) == edit_distance(b, a),
    decreases a.len() + b.len(),
{
    if a.len() > 0 && b.len() > 0 {
        lemma_edit_distance_symmetric(a.drop_last(), b);
        lemma_edit_distance_symmetric(a, b.drop_last());
        lemma_edit_distance_symmetric(a.drop_last(), b.drop_last());
    }
}

/// Only equal strings are at edit distance zero.
pub proof fn lemma_edit_distance_zero_means_equal(a: Seq<char>, b: Seq<char>)
    requires
        edit_distance(a, b) == 0,
    ensures
        a == b,
    decreases a.len() + b.len(),
{
    if a.len() == 0 || b.len() == 0 {
        assert(a =~= b);
    } else {
        lemma_edit_distance_zero_means_equal(a.drop_last(), b.drop_last());
        assert(a =~= a.drop_last().push(a.last()));
        assert(b =~= b.drop_last().push(b.last()));
    }
}

/// Edit distance obeys the triangle inequality.
pub proof fn lemma_edit_distance_triangle(a: Seq<char>, b: Seq<char>, c: Seq<char>)
    ensures
        edit_distance(a, c) <= edit_distance(a, b) + edit_distance(b, c),
    decreases a.len() + b.len() + c.len(),
{
    if b.len() == 0 {
        lemma_edit_distance_at_most_longer(a, c);
    } else {
        let b1 = b.drop_last();
        if a.len() > 0 && edit_distance(a, b) == edit_distance(a.drop_last(), b) + 1 {
            lemma_edit_distance_triangle(a.drop_last(), b, c);
        } else if c.len() > 0 && edit_distance(b, c) == edit_distance(b, c.drop_last()) + 1 {
            lemma_edit_distance_triangle(a, b, c.drop_last());
        } else {
            let drops_b_from_ab = a.len() == 0 || edit_distance(a, b) == edit_distance(a, b1) + 1;
            let drops_b_from_bc = c.len() == 0 || edit_distance(b, c) == edit_distance(b1, c) + 1;
            if drops_b_from_ab && drops_b_from_bc {
                lemma_edit_distance_triangle(a, b1, c);
            } else if drops_b_from_ab {
                lemma_edit_distance_triangle(a, b1, c.drop_last());
            } else if drops_b_from_bc {
                lemma_edit_distance_triangle(a.drop_last(), b1, c);
            } else {
                lemma_edit_distance_triangle(a.drop_last(), b1, c.drop_last());
            }
        }
    }
}

// ---- longest common subsequence ----

/// Dropping the last character of one argument shortens a longest common
/// subsequence by at most one, and never lengthens it.
pub proof fn lemma_lcs_len_steps(a: Seq<char>, b: Seq<char>)
    ensures
        a.len() > 0 ==> lcs_len(a.drop_last(), b) <= lcs_len(a, b) <= lcs_len(a.drop_last(), b) + 1,
        b.len() > 0 ==> lcs_len(a, b.drop_last()) <= lcs_len(a, b) <= lcs_len(a, b.drop_last()) + 1,
    decreases a.len() + b.len(),
{
    if a.len() > 0 && b.len() > 0 {
        lemma_lcs_len_steps(a.drop_last(), b);
        lemma_lcs_len_steps(a, b.drop_last());
    }
}

/// A string's longest common subsequence with itself is the whole string.
pub proof fn lemma_lcs_len_reflexive(a: Seq<char>)
    ensures
        lcs_len(a, a) == a.len(),
    decreases a.len(),
{
    if a.len() > 0 {
        lemma_lcs_len_reflexive(a.drop_last());
    }
}

/// The longest common subsequence does not depend on the order of the arguments.
pub proof fn lemma_lcs_len_symmetric(a: Seq<char>, b: Seq<char>)
    ensures
        lcs_len(a, b) == lcs_len(b, a),
    decreases a.len() + b.len(),
{
    if a.len() > 0 && b.len() > 0 {
        lemma_lcs_len_symmetric(a.drop_last(), b);
        lemma_lcs_len_symmetric(a, b.drop_last());
        lemma_lcs_len_symmetric(a.drop_last(), b.drop_last());
    }
}

/// Two strings of one length whose longest common subsequence is that length are equal.
pub proof fn lemma_lcs_len_full_means_equal(a: Seq<char>, b: Seq<char>)
    requires
        lcs_len(a, b) == a.len(),
        a.len() == b.len(),
    ensures
        a == b,
    decreases a.len() + b.len(),
{
    if a.len() == 0 {
        assert(a =~= b);
    } else {
        lemma_lcs_len_at_most_shorter(a.drop_last(), b);
        lemma_lcs_len_at_most_shorter(a, b.drop_last());
        lemma_lcs_len_full_means_equal(a.drop_last(), b.drop_last());
        assert(a =~= a.drop_last().push(a.last()));
        assert(b =~= b.drop_last().push(b.last()));
    }
}

/// What `b` shares with `a` and with `c` overlaps in at least what `a` shares with `c`:
/// `lcs(a, b) + lcs(b, c) <= len(b) + lcs(a, c)`.
pub proof fn lemma_lcs_len_overlap(a: Seq<char>, b: Seq<char>, c: Seq<char>)
    ensures
        lcs_len(a, b) + lcs_len(b, c) <= b.len() + lcs_len(a, c),
    decreases a.len() + b.len() + c.len(),
{
    lemma_lcs_len_at_most_shorter(a, b);
    lemma_lcs_len_at_most_shorter(b, c);
    if a.len() > 0 && b.len() > 0 && c.len() > 0 {
        let a1 = a.drop_last();
        let b1 = b.drop_last();
        let c1 = c.drop_last();
        lemma_lcs_len_steps(a, c);
        lemma_lcs_len_steps(a, b);
        lemma_lcs_len_steps(b, c);
        if a.last() != b.last() {
            if lcs_len(a, b) == lcs_len(a1, b) {
                lemma_lcs_len_overlap(a1, b, c);
            } else {
                lemma_lcs_len_overlap(a, b1, c);
            }
        } else if b.last() != c.last() {
            if lcs_len(b, c) == lcs_len(b, c1) {
                lemma_lcs_len_overlap(a, b, c1);
            } else {
                lemma_lcs_len_overlap(a, b1, c);
            }
        } else {
            lemma_lcs_len_overlap(a1, b1, c1);
        }
    }
}

/// Subsequence distance is zero from a string to itself.
pub proof fn lemma_subsequence_distance_reflexive(a: Seq<char>)
    ensures
        subsequence_distance(a, a) == 0,
{
    lemma_lcs_len_reflexive(a);
}

/// Subsequence distance does not depend on the order of its arguments.
pub proof fn lemma_subsequence_distance_symmetric(a: Seq<char>, b: Seq<char>)
    ensures
        subsequence_distance(a, b) == subsequence_distance(b, a),
{
    lemma_lcs_len_symmetric(a, b);
}

/// Only equal strings are at subsequence distance zero.
pub proof fn lemma_subsequence_distance_zero_means_equal(a: Seq<char>, b: Seq<char>)
    requires
        subsequence_distance(a, b) == 0,
    ensures
        a == b,
{
    lemma_lcs_len_at_most_shorter(a, b);
    lemma_lcs_len_full_means_equal(a, b);
}

/// Subsequence distance obeys the triangle inequality.
pub proof fn lemma_subsequence_distance_triangle(a: Seq<char>, b: Seq<char>, c: Seq<char>)
    ensures
        subsequence_distance(a, c) <= subsequence_distance(a, b) + subsequence_distance(b, c),
{
    lemma_lcs_len_at_most_shorter(a, b);
    lemma_lcs_len_at_most_shorter(b, c);
    lemma_lcs_len_at_most_shorter(a, c);
    lemma_lcs_len_overlap(a, b, c);
}

// ---- positional (Hamming) distance ----

/// Mismatch counts do not depend on the order of the arguments.
pub proof fn lemma_mismatches_symmetric(a: Seq<char>, b: Seq<char>)
    ensures
        mismatches(a, b) == mismatches(b, a),
    decreases a.len(),
{
    if a.len() > 0 && b.len() > 0 {
        lemma_mismatches_symmetric(a.drop_last(), b.drop_last());
    }
}

/// A string has no mismatch with itself.
pub proof fn lemma_mismatches_reflexive(a: Seq<char>)
    ensures
        mismatches(a, a) == 0,
    decreases a.len(),
{
    if a.len() > 0 {
        lemma_mismatches_reflexive(a.drop_last());
    }
}

/// Strings of one length without mismatches are equal.
pub proof fn lemma_mismatches_zero_means_equal(a: Seq<char>, b: Seq<char>)
    requires
        a.len() == b.len(),
        mismatches(a, b) == 0,
    ensures
        a == b,
    decreases a.len(),
{
    if a.len() == 0 {
        assert(a =~= b);
    } else {
        lemma_mismatches_zero_means_equal(a.drop_last(), b.drop_last());
        assert(a =~= a.drop_last().push(a.last()));
        assert(b =~= b.drop_last().push(b.last()));
    }
}

/// Mismatches between equal-length strings obey the triangle inequality.
pub proof fn lemma_mismatches_triangle(a: Seq<char>, b: Seq<char>, c: Seq<char>)
    requires
        a.len() == b.len(),
        b.len() == c.len(),
    ensures
        mismatches(a, c) <= mismatches(a, b) + mismatches(b, c),
    decreases a.len(),
{
    if a.len() > 0 {
        lemma_mismatches_triangle(a.drop_last(), b.drop_last(), c.drop_last());
    }
}

/// Positional distance is zero from a string to itself.
pub proof fn lemma_positional_distance_reflexive(a: Seq<char>)
    ensures
        positional_distance(a, a) == 0,
{
    lemma_mismatches_reflexive(a);
}

/// Positional distance, sentinel included, does not depend on the order of its arguments.
pub proof fn lemma_positional_distance_symmetric(a: Seq<char>, b: Seq<char>)
    ensures
        positional_distance(a, b) == positional_distance(b, a),
{
    lemma_mismatches_symmetric(a, b);
}

/// Only equal strings are at positional distance zero.
pub proof fn lemma_positional_distance_zero_means_equal(a: Seq<char>, b: Seq<char>)
    requires
        positional_distance(a, b) == 0,
    ensures
        a == b,
{
    lemma_mismatches_zero_means_equal(a, b);
}

/// Read as an integer, the sentinel keeps the triangle inequality for strings that
/// fit in memory: a length mismatch on the left is one on the right too.
pub proof fn lemma_positional_distance_triangle(a: Seq<char>, b: Seq<char>, c: Seq<char>)
    requires
        a.len() <= usize::MAX,
        b.len() <= usize::MAX,
        c.len() <= usize::MAX,
    ensures
        positional_distance(a, c) <= positional_distance(a, b) + positional_distance(b, c),
{
    lemma_mismatches_at_most_len(a, c);
    if a.len() == b.len() && b.len() == c.len() {
        lemma_mismatches_triangle(a, b, c);
    }
}

} // verus!
