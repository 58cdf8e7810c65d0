use vstd::prelude::*;

verus! {

/// The smaller of two naturals.
pub open spec fn min_nat(x: nat, y: nat) -> nat {
    if x <= y {
        x
    } else {
        y
    }
}

/// The larger of two naturals.
pub open spec fn max_nat(x: nat, y: nat) -> nat {
    if x >= y {
        x
    } else {
        y
    }
}

/// The least number of single-character insertions, deletions and substitutions
/// that turn `a` into `b`.
pub open spec fn edit_distance(a: Seq<char>, b: Seq<char>) -> nat
    decreases a.len() + b.len(),
{
    if a.len() == 0 {
        b.len()
    } else if b.len() == 0 {
        a.len()
    } else {
        let cost: nat = if a.last() == b.last() {
            0
        } else {
            1
        };
        min_nat(
            min_nat(edit_distance(a.drop_last(), b) + 1, edit_distance(a, b.drop_last()) + 1),
            edit_distance(a.drop_last(), b.drop_last()) + cost,
        )
    }
}

/// The edit distance never exceeds the length of the longer string.
pub proof fn lemma_edit_distance_at_most_longer(a: Seq<char>, b: Seq<char>)
    ensures
        edit_distance(a, b) <= max_nat(a.len(), b.len()),
    decreases a.len() + b.len(),
{
    if a.len() > 0 && b.len() > 0 {
        lemma_edit_distance_at_most_longer(a.drop_last(), b.drop_last());
    }
}

/// Edit distance between two character sequences, by dynamic programming over
/// one rolling row.
pub fn edit_distance_of(a: &Vec<char>, b: &Vec<char>) -> (r: usize)
    ensures
        r == edit_distance(a@, b@),
{
    let n = a.len();
    let m = b.len();
    let mut row: Vec<usize> = Vec::new();
    row.push(0);
    for j in 0..m
        invariant
            row.len() == j + 1,
            forall|k: int| 0 <= k <= j ==> row@[k] == k,
    {
        row.push(j + 1);
    }
    proof {
        assert forall|k: int| 0 <= k <= m implies row@[k] == edit_distance(a@.take(0), b@.take(k)) by {
            assert(a@.take(0).len() == 0);
        }
    }
    for i in 0..n
        invariant
            n == a.len(),
            m == b.len(),
            row.len() == m + 1,
            forall|k: int| 0 <= k <= m ==> row@[k] == edit_distance(a@.take(i as int), b@.take(k)),
    {
        let mut diag = row[0];
        row[0] = i + 1;
        proof {
            assert(b@.take(0).len() == 0);
        }
        for j in 0..m
            invariant
                n == a.len(),
                m == b.len(),
                i < n,
                row.len() == m + 1,
                diag == edit_distance(a@.take(i as int), b@.take(j as int)),
                forall|k: int| 0 <= k <= j ==> row@[k] == edit_distance(a@.take(i + 1), b@.take(k)),
                forall|k: int|
                    j < k <= m ==> row@[k] == edit_distance(a@.take(i as int), b@.take(k)),
        {
            let up = row[j + 1];
            let left = row[j];
            let ghost pa = a@.take(i + 1);
            let ghost pb = b@.take(j + 1);
            proof {
                lemma_edit_distance_at_most_longer(a@.take(i as int), b@.take(j as int));
                assert(pa.drop_last() =~= a@.take(i as int));
                assert(pb.drop_last() =~= b@.take(j as int));
            }
            let cost: usize = if a[i] == b[j] {
                0
            } else {
                1
            };
            let mut best = diag + cost;
            if up < best {
                best = up + 1;
            }
            if left < best {
                best = left + 1;
            }
            row[j + 1] = best;
            diag = up;
        }
    }
    proof {
        assert(a@.take(n as int) =~= a@);
        assert(b@.take(m as int) =~= b@);
    }
    row[m]
}

/// Length of a longest common subsequence of `a` and `b`.
pub open spec fn lcs_len(a: Seq<char>, b: Seq<char>) -> nat
    decreases a.len() + b.len(),
{
    if a.len() == 0 || b.len() == 0 {
        0
    } else if a.last() == b.last() {
        lcs_len(a.drop_last(), b.drop_last()) + 1
    } else {
        max_nat(lcs_len(a.drop_last(), b), lcs_len(a, b.drop_last()))
    }
}

/// The characters of `a` and `b` outside a longest common subsequence:
/// `len(a) + len(b) - 2 * lcs_len(a, b)`, clamped to `usize::MAX`, which
/// two strings held in memory never reach.
pub open spec fn subsequence_distance(a: Seq<char>, b: Seq<char>) -> nat {
    min_nat((a.len() + b.len() - 2 * lcs_len(a, b)) as nat, usize::MAX as nat)
}

/// A common subsequence is no longer than either string.
pub proof fn lemma_lcs_len_at_most_shorter(a: Seq<char>, b: Seq<char>)
    ensures
        lcs_len(a, b) <= a.len(),
        lcs_len(a, b) <= b.len(),
    decreases a.len() + b.len(),
{
    if a.len() > 0 && b.len() > 0 {
        lemma_lcs_len_at_most_shorter(a.drop_last(), b.drop_last());
        lemma_lcs_len_at_most_shorter(a.drop_last(), b);
        lemma_lcs_len_at_most_shorter(a, b.drop_last());
    }
}

/// Longest-common-subsequence length, by dynamic programming over one rolling row.
pub fn lcs_len_of(a: &Vec<char>, b: &Vec<char>) -> (r: usize)
    ensures
        r == lcs_len(a@, b@),
{
    let n = a.len();
    let m = b.len();
    let mut row: Vec<usize> = Vec::new();
    row.push(0);
    for j in 0..m
        invariant
            row.len() == j + 1,
            forall|k: int| 0 <= k <= j ==> row@[k] == 0,
    {
        row.push(0);
    }
    proof {
        assert forall|k: int| 0 <= k <= m implies row@[k] == lcs_len(a@.take(0), b@.take(k)) by {
            assert(a@.take(0).len() == 0);
        }
    }
    for i in 0..n
        invariant
            n == a.len(),
            m == b.len(),
            row.len() == m + 1,
            forall|k: int| 0 <= k <= m ==> row@[k] == lcs_len(a@.take(i as int), b@.take(k)),
    {
        let mut diag = row[0];
        proof {
            assert(b@.take(0).len() == 0);
        }
        for j in 0..m
            invariant
                n == a.len(),
                m == b.len(),
                i < n,
                row.len() == m + 1,
                diag == lcs_len(a@.take(i as int), b@.take(j as int)),
                forall|k: int| 0 <= k <= j ==> row@[k] == lcs_len(a@.take(i + 1), b@.take(k)),
                forall|k: int| j < k <= m ==> row@[k] == lcs_len(a@.take(i as int), b@.take(k)),
        {
            let up = row[j + 1];
            let left = row[j];
            let ghost pa = a@.take(i + 1);
            let ghost pb = b@.take(j + 1);
            proof {
                lemma_lcs_len_at_most_shorter(a@.take(i as int), b@.take(j as int));
                assert(pa.drop_last() =~= a@.take(i as int));
                assert(pb.drop_last() =~= b@.take(j as int));
            }
            let next = if a[i] == b[j] {
                diag + 1
            } else if up >= left {
                up
            } else {
                left
            };
            row[j + 1] = next;
            diag = up;
        }
    }
    proof {
        assert(a@.take(n as int) =~= a@);
        assert(b@.take(m as int) =~= b@);
    }
    row[m]
}

/// Subsequence distance between two character sequences.
pub fn subsequence_distance_of(a: &Vec<char>, b: &Vec<char>) -> (r: usize)
    ensures
        r == subsequence_distance(a@, b@),
{
    let common = lcs_len_of(a, b);
    proof {
        lemma_lcs_len_at_most_shorter(a@, b@);
    }
    let only_a = a.len() - common;
    let only_b = b.len() - common;
    if only_a > usize::MAX - only_b {
        usize::MAX
    } else {
        only_a + only_b
    }
}

/// Number of positions, up to the shorter length, at which `a` and `b` differ.
pub open spec fn mismatches(a: Seq<char>, b: Seq<char>) -> nat
    decreases a.len(),
{
    if a.len() == 0 || b.len() == 0 {
        0
    } else {
        mismatches(a.drop_last(), b.drop_last()) + if a.last() == b.last() {
            0nat
        } else {
            1nat
        }
    }
}

/// Hamming distance: the mismatched positions of two strings of equal length,
/// and `usize::MAX`, standing for "incomparable", when the lengths differ.
pub open spec fn positional_distance(a: Seq<char>, b: Seq<char>) -> nat {
    if a.len() != b.len() {
        usize::MAX as nat
    } else {
        mismatches(a, b)
    }
}

/// Mismatches never outnumber the positions.
pub proof fn lemma_mismatches_at_most_len(a: Seq<char>, b: Seq<char>)
    ensures
        mismatches(a, b) <= a.len(),
    decreases a.len(),
{
    if a.len() > 0 && b.len() > 0 {
        lemma_mismatches_at_most_len(a.drop_last(), b.drop_last());
    }
}

/// Hamming distance between two character sequences.
pub fn positional_distance_of(a: &Vec<char>, b: &Vec<char>) -> (r: usize)
    ensures
        r == positional_distance(a@, b@),
{
    if a.len() != b.len() {
        return usize::MAX;
    }
    let n = a.len();
    let mut count: usize = 0;
    for i in 0..n
        invariant
            n == a.len(),
            n == b.len(),
            count == mismatches(a@.take(i as int), b@.take(i as int)),
    {
        let ghost pa = a@.take(i + 1);
        let ghost pb = b@.take(i + 1);
        proof {
            lemma_mismatches_at_most_len(a@.take(i as int), b@.take(i as int));
            assert(pa.drop_last() =~= a@.take(i as int));
            assert(pb.drop_last() =~= b@.take(i as int));
        }
        if a[i] != b[i] {
            count = count + 1;
        }
    }
    proof {
        assert(a@.take(n as int) =~= a@);
        assert(b@.take(n as int) =~= b@);
    }
    count
}

} // verus!
