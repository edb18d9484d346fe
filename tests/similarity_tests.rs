use std::collections::BTreeSet;

use similar_string::{
    compare_similarity, find_best_similarity, get_similarity_ratings, lcs_length, RankError,
    Similarity,
};

fn ratio(s: Similarity) -> f64 {
    s.numerator as f64 / s.denominator as f64
}

#[test]
fn lcs_works() {
    let length = lcs_length("longest", "stone");
    assert_eq!(length, 3);
}

#[test]
fn identity_check() {
    let score = compare_similarity("hello", "hello");
    assert_eq!(ratio(score), 1.0);
}

#[test]
fn ratio_is_symetrical() {
    let left = "longest";
    let right = "stone";
    let score1 = compare_similarity(left, right);
    let score2 = compare_similarity(right, left);
    assert_eq!(ratio(score1), ratio(score2));
}

#[test]
fn find_best() {
    let target = "fight";
    let options = vec!["blight", "night", "stride"];
    let (matched, score) = find_best_similarity(target, &options).unwrap();
    assert_eq!(matched, "night");
    assert_eq!(ratio(score), 0.8);
}

#[test]
fn find_best_with_set() {
    let target = format!("fight");
    let mut options = BTreeSet::new();
    options.insert("blight");
    options.insert("night");
    options.insert("stride");
    let vector: Vec<&str> = options.iter().copied().collect();
    let (matched, score) = find_best_similarity(&target, &vector).unwrap();
    assert_eq!(matched, "night");
    assert_eq!(ratio(score), 0.8);
}

#[test]
fn similarity_ratings() {
    let expected = vec![0.4, 0.8, 0.2];
    let options = vec!["fill", "night", "ride"];
    let ratings: Vec<f64> = get_similarity_ratings("fight", &options)
        .into_iter()
        .map(ratio)
        .collect();
    assert_eq!(expected, ratings);
}

#[test]
fn similarity_ratings_exact_fractions() {
    let options = vec!["fill", "night", "ride"];
    let ratings = get_similarity_ratings("fight", &options);
    assert_eq!(
        ratings,
        vec![
            Similarity { numerator: 2, denominator: 5 },
            Similarity { numerator: 4, denominator: 5 },
            Similarity { numerator: 1, denominator: 5 },
        ]
    );
}

#[test]
fn similarity_ratings_of_no_options_is_empty() {
    let options: Vec<&str> = vec![];
    assert!(get_similarity_ratings("fight", &options).is_empty());
}

#[test]
fn age_against_page() {
    let score = compare_similarity("age", "page");
    assert_eq!(score, Similarity { numerator: 3, denominator: 4 });
    assert_eq!(ratio(score), 0.75);
}

#[test]
fn empty_strings_score_one() {
    let score = compare_similarity("", "");
    assert_eq!(score, Similarity { numerator: 1, denominator: 1 });
    assert_eq!(ratio(score), 1.0);
}

#[test]
fn empty_against_non_empty_scores_zero() {
    assert_eq!(ratio(compare_similarity("", "abc")), 0.0);
    assert_eq!(ratio(compare_similarity("abc", "")), 0.0);
}

#[test]
fn disjoint_strings_score_zero() {
    let score = compare_similarity("abc", "xyzw");
    assert_eq!(score, Similarity { numerator: 0, denominator: 4 });
}

#[test]
fn different_strings_score_below_one() {
    let score = compare_similarity("abc", "abcd");
    assert!(ratio(score) < 1.0);
    assert!(ratio(score) > 0.0);
}

#[test]
fn symmetric_on_several_pairs() {
    let pairs = [("kitten", "sitting"), ("", "a"), ("abcde", "ace"), ("über", "uber")];
    for (a, b) in pairs.iter() {
        assert_eq!(compare_similarity(a, b), compare_similarity(b, a));
        assert_eq!(lcs_length(a, b), lcs_length(b, a));
    }
}

#[test]
fn scores_lie_between_zero_and_one() {
    let words = ["", "a", "fight", "night", "stride", "zzz"];
    for a in words.iter() {
        for b in words.iter() {
            let r = ratio(compare_similarity(a, b));
            assert!(0.0 <= r && r <= 1.0);
        }
    }
}

#[test]
fn lcs_never_exceeds_shorter_length() {
    let words = ["", "a", "longest", "stone", "abcabc", "cba"];
    for a in words.iter() {
        for b in words.iter() {
            let shorter = a.chars().count().min(b.chars().count());
            assert!(lcs_length(a, b) <= shorter);
        }
    }
}

#[test]
fn lcs_of_empty_strings_is_zero() {
    assert_eq!(lcs_length("", ""), 0);
    assert_eq!(lcs_length("", "abc"), 0);
    assert_eq!(lcs_length("abc", ""), 0);
}

#[test]
fn lcs_of_equal_strings_is_their_length() {
    assert_eq!(lcs_length("hello", "hello"), 5);
}

#[test]
fn lcs_counts_characters_not_bytes() {
    assert_eq!(lcs_length("ääb", "äb"), 2);
    let score = compare_similarity("äö", "ä");
    assert_eq!(score, Similarity { numerator: 1, denominator: 2 });
}

#[test]
fn lcs_longer_left_argument() {
    assert_eq!(lcs_length("abcbdab", "bdcaba"), 4);
    assert_eq!(lcs_length("bdcaba", "abcbdab"), 4);
}

#[test]
fn find_best_of_no_options_is_an_error() {
    let options: Vec<&str> = vec![];
    assert_eq!(find_best_similarity("fight", &options), Err(RankError::EmptyOptions));
}

#[test]
fn find_best_keeps_first_of_equal_scores() {
    let options = vec!["xx", "bight", "night", "sight"];
    let (matched, score) = find_best_similarity("fight", &options).unwrap();
    assert_eq!(matched, "bight");
    assert_eq!(ratio(score), 0.8);
}

#[test]
fn find_best_compares_fractions_exactly() {
    let options = vec!["ab", "abcd"];
    let (matched, score) = find_best_similarity("abcdefgh", &options).unwrap();
    assert_eq!(matched, "abcd");
    assert_eq!(score, Similarity { numerator: 4, denominator: 8 });
}

#[test]
fn find_best_with_a_single_option() {
    let options = vec!["zzz"];
    let (matched, score) = find_best_similarity("fight", &options).unwrap();
    assert_eq!(matched, "zzz");
    assert_eq!(ratio(score), 0.0);
}

#[test]
fn greater_than_compares_cross_products() {
    let a = Similarity { numerator: 1, denominator: 2 };
    let b = Similarity { numerator: 2, denominator: 4 };
    let c = Similarity { numerator: 3, denominator: 5 };
    assert!(!a.is_greater_than(&b));
    assert!(!b.is_greater_than(&a));
    assert!(c.is_greater_than(&a));
    assert!(!a.is_greater_than(&c));
}
