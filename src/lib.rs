//! An approximate string-matching index: three string metrics (edit distance,
//! positional distance and subsequence distance), a bounded top-k ranking of a
//! dictionary against a word, and a BK-tree that answers radius queries by pruning
//! subtrees with the triangle inequality.

pub mod bk_tree;
pub mod distance;
pub mod distance_laws;
pub mod metrics;
pub mod spell_checker;
pub mod text;
pub mod utils;

pub use bk_tree::{BKTree, SpellCheckError};
pub use metrics::{Checker, Hamming, Lcs, Levenshtein};
pub use spell_checker::{rank, SpellChecker};
pub use utils::{bk_factory, capitalize_first_letter, capitalize_with, filter_alphabet, keep_flagged};
