use spell_check::{bk_factory, BKTree, Checker, Hamming, Lcs, Levenshtein, SpellCheckError, SpellChecker};

fn levenshtein_tree() -> BKTree {
    BKTree::new(Checker::Levenshtein(Levenshtein::new(1)))
}

fn sorted(mut v: Vec<String>) -> Vec<String> {
    v.sort();
    v
}

fn strings(v: &[&str]) -> Vec<String> {
    let mut r: Vec<String> = v.iter().map(|s| s.to_string()).collect();
    r.sort();
    r
}

fn three_word_tree() -> BKTree {
    let mut tree = levenshtein_tree();
    tree.add(&"hello".to_string());
    tree.add(&"hella".to_string());
    tree.add(&"hallo".to_string());
    tree
}

#[test]
#[allow(non_snake_case)]
fn BK_tree_test_add_root() {
    let mut tree = levenshtein_tree();
    tree.add(&"hello".to_string());

    assert_eq!(tree.root().is_some(), true);
    assert_eq!(tree.word(tree.root().unwrap()), "hello");
}

#[test]
#[allow(non_snake_case)]
fn BK_tree_test_add_child() {
    let mut tree = levenshtein_tree();
    tree.add(&"hello".to_string());
    tree.add(&"hella".to_string());

    let root = tree.root().unwrap();
    let child = tree.get_child(root, 1).unwrap();

    assert_eq!(tree.word(child), "hella");
}

#[test]
#[allow(non_snake_case)]
fn BK_tree_test_add_grandchild() {
    let mut tree = levenshtein_tree();
    tree.add(&"hello".to_string());
    tree.add(&"hella".to_string());
    tree.add(&"hallo".to_string());

    let root = tree.root().unwrap();
    let child = tree.get_child(root, 1).unwrap();
    let grandchild = tree.get_child(child, 2).unwrap();

    assert_eq!(tree.word(grandchild), "hallo");
}

#[test]
#[allow(non_snake_case)]
fn BK_tree_test_add_duplicate() {
    let mut tree = levenshtein_tree();
    tree.add(&"hello".to_string());
    tree.add(&"hello".to_string());

    let root = tree.root().unwrap();

    assert_eq!(tree.child_count(root), 0);
}

#[test]
fn bk_tree_test_add_root() {
    let spell_checker = Checker::Levenshtein(Levenshtein::new(1));
    let mut tree = BKTree::new(spell_checker);
    tree.add(&"hello".to_string());

    assert_eq!(tree.root().is_some(), true);
    assert_eq!(tree.word(tree.root().unwrap()), "hello");
}

#[test]
fn bk_tree_test_add_child() {
    let spell_checker = Checker::Levenshtein(Levenshtein::new(1));
    let mut tree = BKTree::new(spell_checker);
    tree.add(&"hello".to_string());
    tree.add(&"hella".to_string());

    let root = tree.root().unwrap();
    let child = tree.get_child(root, 1).unwrap();

    assert_eq!(tree.word(child), "hella");
}

#[test]
fn bk_tree_test_add_grandchild() {
    let spell_checker = Checker::Levenshtein(Levenshtein::new(1));
    let mut tree = BKTree::new(spell_checker);

    tree.add(&"hello".to_string());
    tree.add(&"hella".to_string());
    tree.add(&"hallo".to_string());

    let root = tree.root().unwrap();
    let child = tree.get_child(root, 1).unwrap();
    let grandchild = tree.get_child(child, 2).unwrap();

    assert_eq!(tree.word(grandchild), "hallo");
}

#[test]
fn bk_tree_test_add_duplicate() {
    let spell_checker = Checker::Levenshtein(Levenshtein::new(1));
    let mut tree = BKTree::new(spell_checker);

    tree.add(&"hello".to_string());
    tree.add(&"hello".to_string());

    let root = tree.root().unwrap();

    assert_eq!(tree.child_count(root), 0);
}

#[test]
fn test_search_max_dist_one() {
    let tree = three_word_tree();

    let results = sorted(tree.search(&"hello".to_string(), 1).unwrap());
    let expected = strings(&["hello", "hella", "hallo"]);

    assert_eq!(results, expected);
}

#[test]
fn test_search_no_results() {
    let tree = three_word_tree();

    let results = sorted(tree.search(&"world".to_string(), 1).unwrap());
    let expected = vec![] as Vec<String>;

    assert_eq!(results, expected);
}

#[test]
fn test_search_max_dist_two() {
    let mut tree = three_word_tree();
    tree.add(&"halo".to_string());

    let results = sorted(tree.search(&"hello".to_string(), 2).unwrap());
    let expected = strings(&["hello", "hella", "hallo", "halo"]);

    assert_eq!(results, expected);
}

#[test]
fn test_search_exact_match_present() {
    let tree = three_word_tree();

    let results = sorted(tree.search(&"hello".to_string(), 0).unwrap());
    let expected = strings(&["hello"]);

    assert_eq!(results, expected);
}

#[test]
fn test_search_non_present_exact_match() {
    let tree = three_word_tree();

    let results = tree.search(&"world".to_string(), 0).unwrap();
    let expected = vec![] as Vec<String>;

    assert_eq!(results, expected);
}

#[test]
fn test_search_case_sensitive() {
    let tree = three_word_tree();

    let results = tree.search(&"HELLO".to_string(), 0).unwrap();
    let expected = vec![] as Vec<String>;

    assert_eq!(results, expected);
}

#[test]
fn test_search_no_match() {
    let tree = three_word_tree();

    let results = tree.search(&"world".to_string(), 2).unwrap();

    assert_eq!(results, vec![] as Vec<String>);
}

#[test]
fn test_search_empty_string() {
    let tree = three_word_tree();

    let results = tree.search(&"".to_string(), 4).unwrap();
    let expected = vec![] as Vec<String>;

    assert_eq!(results, expected);
}

#[test]
fn test_search_match_prefix() {
    let tree = three_word_tree();

    let results = sorted(tree.search(&"hell".to_string(), 1).unwrap());
    let expected = strings(&["hello", "hella"]);

    assert_eq!(results, expected);
}

#[test]
fn search_on_empty_tree_reports_empty_index() {
    let tree = levenshtein_tree();
    assert_eq!(tree.search("hello", 1), Err(SpellCheckError::EmptyTree));
}

#[test]
fn search_hello_within_one_and_two() {
    // Edit distances from "hello": "hella" 1, "hallo" 1.
    let tree = three_word_tree();
    assert_eq!(sorted(tree.search("hello", 1).unwrap()), strings(&["hello", "hella", "hallo"]));
    assert_eq!(sorted(tree.search("hello", 2).unwrap()), strings(&["hello", "hella", "hallo"]));
    assert_eq!(sorted(tree.search("hallo", 1).unwrap()), strings(&["hello", "hallo"]));
}

fn brute_force(checker: &Checker, vocabulary: &[&str], query: &str, r: usize) -> Vec<String> {
    let mut v: Vec<String> = vocabulary
        .iter()
        .filter(|w| checker.distance(query, w) <= r)
        .map(|w| w.to_string())
        .collect();
    v.sort();
    v.dedup();
    v
}

#[test]
fn search_matches_brute_force_in_any_insertion_order() {
    let vocabulary = [
        "kitten", "sitting", "kittens", "mitten", "bitten", "sit", "knitting", "", "a", "ab",
        "hello", "hella", "hallo", "halo", "world", "word", "ward",
    ];
    let checkers = [
        Checker::Levenshtein(Levenshtein::new(3)),
        Checker::Lcs(Lcs::new(3)),
        Checker::Hamming(Hamming::new(3)),
    ];
    for checker in checkers.iter() {
        let forward: Vec<String> = vocabulary.iter().map(|s| s.to_string()).collect();
        let backward: Vec<String> = vocabulary.iter().rev().map(|s| s.to_string()).collect();
        for order in [forward, backward].iter() {
            let mut tree = BKTree::new(*checker);
            tree.load_dictionary(order);
            assert_eq!(tree.len(), vocabulary.len());
            for query in ["kitten", "sittin", "", "hellp", "wor", "abc"].iter() {
                for r in 0..4 {
                    let got = sorted(tree.search(query, r).unwrap());
                    assert_eq!(got, brute_force(checker, &vocabulary, query, r));
                }
            }
        }
    }
}

#[test]
fn inserting_an_existing_word_keeps_the_node_count() {
    let mut tree = three_word_tree();
    assert_eq!(tree.len(), 3);
    tree.add(&"hella".to_string());
    assert_eq!(tree.len(), 3);
    tree.add(&"help".to_string());
    assert_eq!(tree.len(), 4);
}

#[test]
fn load_dictionary_inserts_each_word_once() {
    let mut tree = levenshtein_tree();
    let words: Vec<String> = vec!["a".to_string(), "b".to_string(), "a".to_string()];
    tree.load_dictionary(&words);
    assert_eq!(tree.len(), 2);
    assert_eq!(tree.word(0), "a");
    assert_eq!(tree.word(1), "b");
}

#[test]
fn bk_factory_builds_each_metric() {
    for name in ["levenshtein", "lcs", "hamming"].iter() {
        let mut tree = bk_factory(name, 3).unwrap();
        assert_eq!(tree.len(), 0);
        tree.add(&"cat".to_string());
        tree.add(&"cut".to_string());
        let root = tree.root().unwrap();
        let expected = if *name == "lcs" { 2 } else { 1 };
        assert!(tree.get_child(root, expected).is_some());
    }
}

#[test]
fn bk_factory_rejects_unknown_metric() {
    assert!(matches!(bk_factory("unknown", 3), Err(SpellCheckError::UnknownAlgorithm)));
    assert!(matches!(bk_factory("Levenshtein", 3), Err(SpellCheckError::UnknownAlgorithm)));
}
