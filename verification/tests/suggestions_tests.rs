use dynamic_cli::error::find_similar_strings;
use dynamic_cli::error::suggestions::levenshtein_distance;

#[test]
fn test_levenshtein_distance_identical() {
    assert_eq!(levenshtein_distance("hello", "hello"), 0);
}

#[test]
fn test_levenshtein_distance_empty() {
    assert_eq!(levenshtein_distance("", "hello"), 5);
    assert_eq!(levenshtein_distance("hello", ""), 5);
    assert_eq!(levenshtein_distance("", ""), 0);
}

#[test]
fn test_levenshtein_distance_one_char_diff() {
    assert_eq!(levenshtein_distance("hello", "hallo"), 1);
    assert_eq!(levenshtein_distance("hello", "hell"), 1);
    assert_eq!(levenshtein_distance("hello", "hellow"), 1);
}

#[test]
fn test_levenshtein_distance_classic_examples() {
    assert_eq!(levenshtein_distance("kitten", "sitting"), 3);
    assert_eq!(levenshtein_distance("saturday", "sunday"), 3);
    assert_eq!(levenshtein_distance("simulate", "simulat"), 1);
}

#[test]
fn test_levenshtein_symmetry_samples() {
    let pairs = vec![("kitten", "sitting"), ("abc", ""), ("flour", "flower")];
    for (a, b) in pairs {
        assert_eq!(levenshtein_distance(a, b), levenshtein_distance(b, a));
    }
}

#[test]
fn test_find_similar_strings_exact_match() {
    let candidates = vec![
        "simulate".to_string(),
        "validate".to_string(),
        "plot".to_string(),
    ];

    let suggestions = find_similar_strings("simulate", &candidates, 3);

    assert_eq!(suggestions.first(), Some(&"simulate".to_string()));
}

#[test]
fn test_find_similar_strings_typo() {
    let candidates = vec![
        "simulate".to_string(),
        "validate".to_string(),
        "plot".to_string(),
    ];

    let suggestions = find_similar_strings("simulat", &candidates, 3);

    assert!(suggestions.contains(&"simulate".to_string()));
    assert!(!suggestions.contains(&"plot".to_string()));
}

#[test]
fn test_find_similar_strings_max_suggestions() {
    let candidates = vec![
        "aaaa".to_string(),
        "aaab".to_string(),
        "aabb".to_string(),
        "abbb".to_string(),
    ];

    let suggestions = find_similar_strings("aaaa", &candidates, 2);

    assert!(suggestions.len() <= 2);
    assert!(suggestions.contains(&"aaaa".to_string()));
}

#[test]
fn test_find_similar_strings_threshold() {
    let candidates = vec!["simulate".to_string(), "wxyz".to_string()];

    let suggestions = find_similar_strings("abc", &candidates, 10);
    println!("{:?}", suggestions);

    assert!(suggestions.is_empty());
}

#[test]
fn test_find_similar_strings_threshold_exactly_3() {
    let candidates = vec!["xyz".to_string()];
    let suggestions = find_similar_strings("abc", &candidates, 10);

    assert_eq!(suggestions.len(), 1);
    assert_eq!(suggestions[0], "xyz");
}

#[test]
fn test_find_similar_strings_empty_candidates() {
    let candidates: Vec<String> = vec![];
    let suggestions = find_similar_strings("test", &candidates, 3);
    assert!(suggestions.is_empty());
}

#[test]
fn test_find_similar_strings_case_sensitive() {
    let candidates = vec!["Simulate".to_string(), "simulate".to_string()];

    let suggestions = find_similar_strings("simulate", &candidates, 2);

    assert_eq!(suggestions.first(), Some(&"simulate".to_string()));
}

#[test]
fn test_find_similar_strings_stable_ties() {
    // candidates at the same distance keep the order they were supplied in
    let candidates = vec!["bat".to_string(), "cat".to_string(), "hat".to_string()];
    let suggestions = find_similar_strings("rat", &candidates, 3);
    assert_eq!(suggestions, vec!["bat", "cat", "hat"]);
}

#[test]
fn test_suggest_scenario() {
    let candidates = vec![
        "simulate".to_string(),
        "validate".to_string(),
        "plot".to_string(),
    ];
    let suggestions = find_similar_strings("simulat", &candidates, 3);
    assert_eq!(suggestions, vec!["simulate".to_string()]);
}

#[test]
fn test_levenshtein_triangle_samples() {
    let words = ["kitten", "sitting", "saturday", "sunday", "", "abc"];
    for a in words {
        for b in words {
            for c in words {
                let direct = levenshtein_distance(a, c);
                let through = levenshtein_distance(a, b) + levenshtein_distance(b, c);
                assert!(direct <= through);
            }
        }
    }
}

#[test]
fn test_levenshtein_performance() {
    let s1 = "a".repeat(100);
    let s2 = "b".repeat(100);

    let distance = levenshtein_distance(&s1, &s2);
    assert_eq!(distance, 100);
}
