use vstd::prelude::*;
use crate::metrics::Checker;
use crate::text::{chars_of, lemma_lex_lt_total, lemma_lex_lt_transitive, lex_less, lex_lt};

verus! {

/// A string metric that can also rank a dictionary against a word.
pub trait SpellChecker {
    /// The distance this checker computes, on the characters of the two strings.
    spec fn spec_distance(&self, word: Seq<char>, target: Seq<char>) -> nat;

    /// How many best matches `get_matches` keeps.
    spec fn spec_default_matches(&self) -> nat;

    /// The distance from `word` to `target`.
    fn distance(&self, word: &str, target: &str) -> (r: usize)
        ensures
            r == self.spec_distance(word@, target@),
    ;

    /// The `spec_default_matches()` dictionary entries closest to `word`, as
    /// (distance, entry) pairs in ascending order.
    fn get_matches(&self, dictionary: &Vec<String>, word: &str) -> (r: Vec<(usize, String)>)
        requires
            distinct_words(dictionary@),
        ensures
            is_top_k(
                scored(words_of(dictionary@), |w: Seq<char>| self.spec_distance(word@, w)),
                self.spec_default_matches(),
                entries_of(r@),
            ),
    ;
}

/// The characters of each string.
pub open spec fn words_of(v: Seq<String>) -> Seq<Seq<char>> {
    v.map_values(|s: String| s@)
}

/// No two strings of `v` hold the same text.
pub open spec fn distinct_words(v: Seq<String>) -> bool {
    forall|i: int, j: int| 0 <= i < v.len() && 0 <= j < v.len() && i != j ==> v[i]@ != v[j]@
}

/// A ranked match with its text as characters.
pub open spec fn entries_of(v: Seq<(usize, String)>) -> Seq<(int, Seq<char>)> {
    v.map_values(|e: (usize, String)| (e.0 as int, e.1@))
}

/// Each candidate paired with its score.
pub open spec fn scored(candidates: Seq<Seq<char>>, score: spec_fn(Seq<char>) -> nat) -> Seq<
    (int, Seq<char>),
> {
    candidates.map_values(|w: Seq<char>| (score(w) as int, w))
}

/// Ranking order: by distance, then lexicographically by text.
pub open spec fn entry_lt(x: (int, Seq<char>), y: (int, Seq<char>)) -> bool {
    x.0 < y.0 || (x.0 == y.0 && lex_lt(x.1, y.1))
}

/// Strictly ascending in ranking order.
pub open spec fn is_ascending(r: Seq<(int, Seq<char>)>) -> bool {
    forall|i: int, j: int| 0 <= i < j < r.len() ==> entry_lt(r[i], r[j])
}

/// `r` holds exactly the `k` smallest of `entries` (all of them when fewer),
/// in ascending order.
pub open spec fn is_top_k(entries: Seq<(int, Seq<char>)>, k: nat, r: Seq<(int, Seq<char>)>) -> bool {
    &&& is_ascending(r)
    &&& r.len() == if entries.len() < k {
        entries.len()
    } else {
        k
    }
    &&& forall|i: int| 0 <= i < r.len() ==> entries.contains(#[trigger] r[i])
    &&& forall|j: int|
        0 <= j < entries.len() ==> r.contains(#[trigger] entries[j]) || (forall|i: int|
            0 <= i < r.len() ==> entry_lt(r[i], entries[j]))
}

proof fn lemma_entry_lt_transitive(x: (int, Seq<char>), y: (int, Seq<char>), z: (int, Seq<char>))
    requires
        entry_lt(x, y),
        entry_lt(y, z),
    ensures
        entry_lt(x, z),
{
    if x.0 == y.0 && y.0 == z.0 {
        lemma_lex_lt_transitive(x.1, y.1, z.1);
    }
}

proof fn lemma_entry_lt_total(x: (int, Seq<char>), y: (int, Seq<char>))
    requires
        x != y,
    ensures
        entry_lt(x, y) || entry_lt(y, x),
{
    if x.0 == y.0 {
        lemma_lex_lt_total(x.1, y.1);
    }
}

/// Inserting `e` at its place in a top-k list over `entries` and dropping the
/// largest on overflow gives the top-k list over `entries.push(e)`.
proof fn lemma_insert_keeps_top_k(
    entries: Seq<(int, Seq<char>)>,
    k: nat,
    r: Seq<(int, Seq<char>)>,
    pos: int,
    e: (int, Seq<char>),
)
    requires
        is_top_k(entries, k, r),
        r.len() < k ==> forall|j: int| 0 <= j < entries.len() ==> r.contains(#[trigger] entries[j]),
        !entries.contains(e),
        0 <= pos <= r.len(),
        forall|i: int| 0 <= i < pos ==> entry_lt(#[trigger] r[i], e),
        pos < r.len() ==> !entry_lt(r[pos], e),
    ensures
        ({
            let r2 = r.insert(pos, e);
            let r3 = if r2.len() > k {
                r2.drop_last()
            } else {
                r2
            };
            &&& is_top_k(entries.push(e), k, r3)
            &&& r3.len() < k ==> forall|j: int|
                0 <= j < entries.len() + 1 ==> r3.contains(#[trigger] entries.push(e)[j])
        }),
{
    let r2 = r.insert(pos, e);
    let r3 = if r2.len() > k {
        r2.drop_last()
    } else {
        r2
    };
    let all = entries.push(e);
    assert(!r.contains(e)) by {
        if r.contains(e) {
            let i = choose|i: int| 0 <= i < r.len() && r[i] == e;
            assert(entries.contains(r[i]));
        }
    }
    assert forall|i: int| pos <= i < r.len() implies entry_lt(e, #[trigger] r[i]) by {
        assert(r[pos] != e);
        lemma_entry_lt_total(r[pos], e);
        if i > pos {
            lemma_entry_lt_transitive(e, r[pos], r[i]);
        }
    }
    assert(is_ascending(r2)) by {
        assert forall|i: int, j: int| 0 <= i < j < r2.len() implies entry_lt(r2[i], r2[j]) by {
            if j < pos {
            } else if j == pos {
            } else if i < pos {
                lemma_entry_lt_transitive(r[i], e, r[j - 1]);
            } else if i == pos {
            } else {
            }
        }
    }
    assert(is_ascending(r3));
    assert(r3.len() == if all.len() < k {
        all.len()
    } else {
        k
    });
    assert forall|i: int| 0 <= i < r3.len() implies all.contains(#[trigger] r3[i]) by {
        if i < pos {
            assert(entries.contains(r[i]));
            let m = choose|m: int| 0 <= m < entries.len() && entries[m] == r[i];
            assert(all[m] == r3[i]);
        } else if i == pos {
            assert(all[entries.len() as int] == e);
        } else {
            assert(entries.contains(r[i - 1]));
            let m = choose|m: int| 0 <= m < entries.len() && entries[m] == r[i - 1];
            assert(all[m] == r3[i]);
        }
    }
    assert forall|j: int| 0 <= j < all.len() implies r3.contains(#[trigger] all[j]) || (forall|i: int|
        0 <= i < r3.len() ==> entry_lt(r3[i], all[j])) by {
        let x = all[j];
        if !r3.contains(x) {
            if j == entries.len() {
                assert(r2[pos] == x);
                if r2.len() <= k || pos < r2.len() - 1 {
                    assert(r3[pos] == x);
                }
                assert(pos == r2.len() - 1);
                assert forall|i: int| 0 <= i < r3.len() implies entry_lt(r3[i], x) by {
                    assert(r3[i] == r2[i]);
                }
            } else {
                assert(x == entries[j]);
                if r.contains(x) {
                    let m = choose|m: int| 0 <= m < r.len() && r[m] == x;
                    let m2 = if m < pos {
                        m
                    } else {
                        m + 1
                    };
                    assert(r2[m2] == x);
                    if r2.len() <= k || m2 < r2.len() - 1 {
                        assert(r3[m2] == x);
                    }
                    assert(m2 == r2.len() - 1);
                    assert forall|i: int| 0 <= i < r3.len() implies entry_lt(r3[i], x) by {
                        assert(r3[i] == r2[i]);
                    }
                } else {
                    assert(r.len() == k);
                    assert forall|i: int| 0 <= i < r3.len() implies entry_lt(r3[i], x) by {
                        if i < pos {
                        } else if i == pos {
                            assert(pos < r.len());
                            lemma_entry_lt_transitive(e, r[r.len() - 1], x);
                        } else {
                        }
                    }
                }
            }
        }
    }
    if r3.len() < k {
        assert forall|j: int| 0 <= j < all.len() implies r3.contains(#[trigger] all[j]) by {
            if j == entries.len() {
                assert(r3[pos] == all[j]);
            } else {
                assert(r.contains(entries[j]));
                let m = choose|m: int| 0 <= m < r.len() && r[m] == entries[j];
                let m2 = if m < pos {
                    m
                } else {
                    m + 1
                };
                assert(r3[m2] == all[j]);
            }
        }
    }
}

fn entry_less(x: &(usize, String), y: &(usize, String)) -> (r: bool)
    ensures
        r == entry_lt((x.0 as int, x.1@), (y.0 as int, y.1@)),
{
    if x.0 != y.0 {
        x.0 < y.0
    } else {
        lex_less(&chars_of(x.1.as_str()), &chars_of(y.1.as_str()))
    }
}

/// The `k` candidates closest to `query` under `checker`, as (distance, candidate)
/// pairs sorted by distance and then by text. A sorted vector stands for the bounded
/// max-heap: each candidate goes in at its place, and on overflow the largest leaves.
/// As the candidates are distinct, the outcome does not depend on their order.
pub fn rank(checker: &Checker, candidates: &Vec<String>, query: &str, k: usize) -> (r: Vec<
    (usize, String),
>)
    requires
        distinct_words(candidates@),
    ensures
        is_top_k(
            scored(words_of(candidates@), |w: Seq<char>| checker.spec_distance(query@, w)),
            k as nat,
            entries_of(r@),
        ),
{
    let ghost all = scored(words_of(candidates@), |w: Seq<char>| checker.spec_distance(query@, w));
    let mut kept: Vec<(usize, String)> = Vec::new();
    let n = candidates.len();
    proof {
        assert(all.take(0) =~= Seq::<(int, Seq<char>)>::empty());
        assert(entries_of(kept@) =~= Seq::<(int, Seq<char>)>::empty());
    }
    let mut t: usize = 0;
    while t < n
        invariant
            t <= n,
            n == candidates.len(),
            all == scored(words_of(candidates@), |w: Seq<char>| checker.spec_distance(query@, w)),
            all.len() == n,
            distinct_words(candidates@),
            is_top_k(all.take(t as int), k as nat, entries_of(kept@)),
            entries_of(kept@).len() < k ==> forall|j: int|
                0 <= j < t ==> entries_of(kept@).contains(#[trigger] all.take(t as int)[j]),
        decreases n - t,
    {
        let d = checker.distance(query, candidates[t].as_str());
        let entry = (d, candidates[t].clone());
        let ghost e = (d as int, candidates@[t as int]@);
        let ghost before = entries_of(kept@);
        let mut pos: usize = 0;
        while pos < kept.len() && entry_less(&kept[pos], &entry)
            invariant
                pos <= kept.len(),
                before == entries_of(kept@),
                e == (entry.0 as int, entry.1@),
                forall|i: int| 0 <= i < pos ==> entry_lt(#[trigger] before[i], e),
            decreases kept.len() - pos,
        {
            pos = pos + 1;
        }
        proof {
            assert(all[t as int] == e);
            assert(all.take(t + 1) =~= all.take(t as int).push(e));
            assert(!all.take(t as int).contains(e)) by {
                if all.take(t as int).contains(e) {
                    let j = choose|j: int| 0 <= j < t && all.take(t as int)[j] == e;
                    assert(candidates@[j]@ == candidates@[t as int]@);
                }
            }
            assert(all.take(t as int).len() == t);
            if before.len() < k {
                assert forall|j: int| 0 <= j < t implies before.contains(
                    #[trigger] all.take(t as int)[j],
                ) by {
                    assert(entries_of(kept@).contains(all.take(t as int)[j]));
                }
            }
            lemma_insert_keeps_top_k(all.take(t as int), k as nat, before, pos as int, e);
        }
        kept.insert(pos, entry);
        proof {
            assert(entries_of(kept@) =~= before.insert(pos as int, e));
        }
        if kept.len() > k {
            kept.pop();
            proof {
                assert(entries_of(kept@) =~= before.insert(pos as int, e).drop_last());
            }
        }
        t = t + 1;
    }
    proof {
        assert(all.take(n as int) =~= all);
    }
    kept
}

} // verus!
