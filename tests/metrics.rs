use spell_check::{rank, Checker, Hamming, Lcs, Levenshtein, SpellChecker};

fn words(v: &[&str]) -> Vec<String> {
    v.iter().map(|s| s.to_string()).collect()
}

fn pairs(v: &[(usize, &str)]) -> Vec<(usize, String)> {
    v.iter().map(|(d, s)| (*d, s.to_string())).collect()
}

#[test]
fn test_hamming_distance() {
    let hamming = Hamming::new(3);

    assert_eq!(hamming.distance("kitten", "sittin"), 2);
    assert_eq!(hamming.distance("kitten", "kittes"), 1);
    assert_eq!(hamming.distance("kitten", "k1tt3n"), 2);
}

#[test]
fn test_hamming_distance_same_word() {
    let hamming = Hamming::new(3);

    assert_eq!(hamming.distance("kitten", "kitten"), 0);
    assert_eq!(hamming.distance("sitting", "sitting"), 0);
    assert_eq!(hamming.distance("hello my friend, I'm back", "hello my friend, I'm back"), 0);
}

#[test]
fn test_hamming_distance_different_length() {
    let hamming = Hamming::new(3);

    assert_eq!(hamming.distance("kitten", "sittingg"), usize::MAX);
    assert_eq!(hamming.distance("kitten", "sittins"), usize::MAX);
    assert_eq!(hamming.distance("kitten", "k1tt3n5"), usize::MAX);
    assert_eq!(hamming.distance("kitten", "wrejfgnjwkenfkjewn"), usize::MAX);
}

#[test]
fn test_hamming_get_matches() {
    let hamming = Hamming::new(3);
    let dictionary = words(&["kitten", "sittin", "nettik"]);

    let matches = hamming.get_matches(&dictionary, "kitten");
    assert_eq!(matches, pairs(&[(0, "kitten"), (2, "sittin"), (4, "nettik")]));
}

#[test]
fn test_hamming_get_matches_empty_dictionary() {
    let hamming = Hamming::new(3);
    let dictionary: Vec<String> = Vec::new();

    let matches = hamming.get_matches(&dictionary, "kitten");
    assert_eq!(matches, vec![]);
}

#[test]
fn test_hamming_get_matches_no_matches() {
    let hamming = Hamming::new(0);
    let dictionary = words(&["sitting", "kittens"]);

    let matches = hamming.get_matches(&dictionary, "kitten");
    assert_eq!(matches, vec![]);
}

#[test]
fn test_hamming_get_matches_less_than_default() {
    let hamming = Hamming::new(3);
    let dictionary = words(&["kitten", "sittin"]);

    let matches = hamming.get_matches(&dictionary, "kitten");
    assert_eq!(matches, pairs(&[(0, "kitten"), (2, "sittin")]));
}

#[test]
fn test_hamming_get_matches_more_than_default() {
    let hamming = Hamming::new(1);
    let dictionary = words(&["kitten", "sitting", "kittens"]);

    let matches = hamming.get_matches(&dictionary, "kitten");
    assert_eq!(matches, pairs(&[(0, "kitten")]));
}

#[test]
fn test_lcs_distance() {
    let lcs = Lcs::new(3);

    assert_eq!(lcs.distance("kitten", "sitting"), 5);
    assert_eq!(lcs.distance("kitten", "sittin"), 4);
    assert_eq!(lcs.distance("cat", "cut"), 2);
    assert_eq!(lcs.distance("abcdef", "acbcf"), 3);
}

#[test]
fn test_no_common_lcs_distance() {
    let lcs = Lcs::new(3);

    assert_eq!(lcs.distance("abc", "xyz"), 6);
}

#[test]
fn test_lcs_distance_same_word() {
    let lcs = Lcs::new(3);

    assert_eq!(lcs.distance("kitten", "kitten"), 0);
    assert_eq!(lcs.distance("sitting", "sitting"), 0);
    assert_eq!(lcs.distance("hello my friend, I'm back", "hello my friend, I'm back"), 0);
}

#[test]
fn test_lcs_distance_empty_string() {
    let lcs = Lcs::new(3);

    assert_eq!(lcs.distance("", ""), 0);
    assert_eq!(lcs.distance("kitten", ""), 6);
    assert_eq!(lcs.distance("", "kitten"), 6);
}

#[test]
fn test_lcs_get_matches() {
    let lcs = Lcs::new(2);
    let dictionary = words(&["kitten", "sitting", "cat", "cut", "abcdef"]);

    assert_eq!(lcs.get_matches(&dictionary, "kitten"), pairs(&[(0, "kitten"), (5, "sitting")]));
    assert_eq!(lcs.get_matches(&dictionary, "sittin"), pairs(&[(1, "sitting"), (4, "kitten")]));
    assert_eq!(lcs.get_matches(&dictionary, "catt"), pairs(&[(1, "cat"), (3, "cut")]));
    assert_eq!(lcs.get_matches(&dictionary, "acbcf"), pairs(&[(3, "abcdef"), (6, "cat")]));
}

#[test]
fn test_lcs_get_zero_matches() {
    let lcs = Lcs::new(0);
    let dictionary = words(&["kitten", "sitting", "cat", "cut", "abcdef"]);

    assert_eq!(lcs.get_matches(&dictionary, "kitten"), vec![]);
}

fn four_words() -> Vec<String> {
    words(&["kitten", "sitting", "saturday", "sunday"])
}

#[test]
fn test_levenshtein_distance_for_empty_string() {
    let dictionary = four_words();
    let spell_checker: Levenshtein = Levenshtein::new(1);

    assert_eq!(spell_checker.get_matches(&dictionary, "").len(), 1);
    assert_eq!(spell_checker.get_matches(&dictionary, "")[0].0, 6);
}

#[test]
fn test_levenshtein_distance_for_match_equal_zero() {
    let dictionary = four_words();
    let spell_checker: Levenshtein = Levenshtein::new(1);

    assert_eq!(spell_checker.get_matches(&dictionary, "kitten")[0].0, 0);
    assert_eq!(spell_checker.get_matches(&dictionary, "sitting")[0].0, 0);
    assert_eq!(spell_checker.get_matches(&dictionary, "saturday")[0].0, 0);
    assert_eq!(spell_checker.get_matches(&dictionary, "sunday")[0].0, 0);
}

#[test]
fn test_levenshtein_distance_for_match_equal_one() {
    let dictionary = four_words();
    let spell_checker: Levenshtein = Levenshtein::new(1);

    assert_eq!(spell_checker.get_matches(&dictionary, "kittens")[0].0, 1);
    assert_eq!(spell_checker.get_matches(&dictionary, "sittin")[0].0, 1);
    assert_eq!(spell_checker.get_matches(&dictionary, "satyrday")[0].0, 1);
    assert_eq!(spell_checker.get_matches(&dictionary, "sundae")[0].0, 1);
}

#[test]
fn test_levenshtein_with_n_matching_terms() {
    let dictionary = four_words();
    let spell_checker: Levenshtein = Levenshtein::new(2);

    assert_eq!(spell_checker.get_matches(&dictionary, "kittens").len(), 2);
    assert_eq!(spell_checker.get_matches(&dictionary, "sittin").len(), 2);
    assert_eq!(spell_checker.get_matches(&dictionary, "satyrday").len(), 2);
    assert_eq!(spell_checker.get_matches(&dictionary, "sundae").len(), 2);
}

#[test]
fn test_levenshtein_with_n_matching_terms_and_n_greater_than_dictionary() {
    let dictionary = four_words();
    let spell_checker: Levenshtein = Levenshtein::new(5);

    assert_eq!(spell_checker.get_matches(&dictionary, "kittens").len(), 4);
    assert_eq!(spell_checker.get_matches(&dictionary, "sittin").len(), 4);
    assert_eq!(spell_checker.get_matches(&dictionary, "satyrday").len(), 4);
    assert_eq!(spell_checker.get_matches(&dictionary, "sundae").len(), 4);
}

#[test]
fn test_levenshtein_top_2_matches() {
    let dictionary = four_words();
    let spell_checker: Levenshtein = Levenshtein::new(2);

    assert_eq!(spell_checker.get_matches(&dictionary, "kittens")[0].0, 1);
    assert_eq!(spell_checker.get_matches(&dictionary, "kittens")[0].1, "kitten".to_string());

    assert_eq!(spell_checker.get_matches(&dictionary, "kittens")[1].0, 3);
    assert_eq!(spell_checker.get_matches(&dictionary, "kittens")[1].1, "sitting".to_string());
}

#[test]
fn every_metric_is_reflexive() {
    let checkers = [
        Checker::Levenshtein(Levenshtein::new(1)),
        Checker::Lcs(Lcs::new(1)),
        Checker::Hamming(Hamming::new(1)),
    ];
    for c in checkers.iter() {
        for x in ["", "a", "kitten", "héllo wörld"].iter() {
            assert_eq!(c.distance(x, x), 0);
        }
    }
}

#[test]
fn every_metric_is_symmetric() {
    let checkers = [
        Checker::Levenshtein(Levenshtein::new(1)),
        Checker::Lcs(Lcs::new(1)),
        Checker::Hamming(Hamming::new(1)),
    ];
    let samples = ["", "kitten", "sitting", "sittin", "abcdef", "acbcf"];
    for c in checkers.iter() {
        for a in samples.iter() {
            for b in samples.iter() {
                assert_eq!(c.distance(a, b), c.distance(b, a));
            }
        }
    }
}

#[test]
fn edit_and_subsequence_distances_obey_the_triangle_inequality() {
    let checkers = [Checker::Levenshtein(Levenshtein::new(1)), Checker::Lcs(Lcs::new(1))];
    let samples = ["", "kitten", "sitting", "sittin", "abcdef", "acbcf", "cat", "cut"];
    for c in checkers.iter() {
        for a in samples.iter() {
            for b in samples.iter() {
                for d in samples.iter() {
                    assert!(c.distance(a, d) <= c.distance(a, b) + c.distance(b, d));
                }
            }
        }
    }
}

#[test]
fn positional_distance_of_different_lengths_is_the_sentinel() {
    assert_eq!(Hamming::new(1).distance("kitten", "sitting"), usize::MAX);
    assert_eq!(Hamming::new(1).distance("sitting", "kitten"), usize::MAX);
}

#[test]
fn subsequence_and_edit_distance_differ_on_cat_cut() {
    assert_eq!(Lcs::new(1).distance("cat", "cut"), 2);
    assert_eq!(Levenshtein::new(1).distance("cat", "cut"), 1);
}

#[test]
fn edit_distance_values() {
    let l = Levenshtein::new(1);
    assert_eq!(l.distance("kitten", "sitting"), 3);
    assert_eq!(l.distance("saturday", "sunday"), 3);
    assert_eq!(l.distance("", "abc"), 3);
    assert_eq!(l.distance("flaw", "lawn"), 2);
}

#[test]
fn distances_count_characters_not_bytes() {
    assert_eq!(Levenshtein::new(1).distance("café", "cafe"), 1);
    assert_eq!(Hamming::new(1).distance("café", "cafe"), 1);
    assert_eq!(Lcs::new(1).distance("café", "cafe"), 2);
    assert_eq!(Levenshtein::new(1).distance("日本", "日"), 1);
}

#[test]
fn rank_keeps_the_single_best() {
    let checker = Checker::Levenshtein(Levenshtein::new(1));
    let candidates = words(&["kitten", "sitting", "kittens"]);
    assert_eq!(rank(&checker, &candidates, "kitten", 1), pairs(&[(0, "kitten")]));
}

#[test]
fn rank_is_bounded_sorted_and_breaks_ties_by_text() {
    let checker = Checker::Levenshtein(Levenshtein::new(1));
    let candidates = words(&["bat", "cat", "hat", "at", "cart", "dog"]);
    assert_eq!(rank(&checker, &candidates, "cat", 0), vec![]);
    assert_eq!(rank(&checker, &candidates, "cat", 3), pairs(&[(0, "cat"), (1, "at"), (1, "bat")]));
    let all = rank(&checker, &candidates, "cat", 10);
    assert_eq!(all.len(), 6);
    assert_eq!(
        all,
        pairs(&[(0, "cat"), (1, "at"), (1, "bat"), (1, "cart"), (1, "hat"), (3, "dog")])
    );
    let reversed: Vec<String> = candidates.iter().rev().cloned().collect();
    assert_eq!(rank(&checker, &reversed, "cat", 3), pairs(&[(0, "cat"), (1, "at"), (1, "bat")]));
    assert_eq!(rank(&checker, &Vec::new(), "cat", 3), vec![]);
}

#[test]
fn checker_get_matches_uses_its_budget() {
    let checker = Checker::Lcs(Lcs::new(2));
    let candidates = words(&["kitten", "sitting", "cat", "cut", "abcdef"]);
    assert_eq!(checker.get_matches(&candidates, "catt"), pairs(&[(1, "cat"), (3, "cut")]));
}
