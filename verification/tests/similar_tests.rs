use gdcli::similar::{find_similar, levenshtein_distance};

#[test]
fn test_levenshtein_distance() {
    assert_eq!(levenshtein_distance("kitten", "sitting"), 3);
    assert_eq!(levenshtein_distance("hello", "hello"), 0);
    assert_eq!(levenshtein_distance("", "abc"), 3);
    assert_eq!(levenshtein_distance("abc", ""), 3);
}

#[test]
fn levenshtein_counts_characters_not_bytes() {
    assert_eq!(levenshtein_distance("生命", "生命值"), 1);
    assert_eq!(levenshtein_distance("abc", "cba"), 2);
}

#[test]
fn test_find_similar_exact_match() {
    let candidates = vec!["health".to_string(), "damage".to_string(), "speed".to_string()];
    let suggestions = find_similar("health", &candidates);
    assert!(suggestions.contains(&"health".to_string()));
}

#[test]
fn test_find_similar_partial_match() {
    let candidates = vec!["health".to_string(), "damage".to_string(), "speed".to_string()];
    let suggestions = find_similar("heal", &candidates);
    assert!(suggestions.contains(&"health".to_string()));
}

#[test]
fn test_find_similar_typo() {
    let candidates = vec!["health".to_string(), "damage".to_string(), "speed".to_string()];
    let suggestions = find_similar("healht", &candidates);
    assert!(suggestions.contains(&"health".to_string()));
}

#[test]
fn test_find_similar_no_match() {
    let candidates = vec!["health".to_string(), "damage".to_string(), "speed".to_string()];
    let suggestions = find_similar("xyz", &candidates);
    assert!(suggestions.is_empty());
}

#[test]
fn test_find_similar_limits_to_three() {
    let candidates = vec![
        "health".to_string(),
        "healthy".to_string(),
        "heal".to_string(),
        "healer".to_string(),
        "healing".to_string(),
    ];
    let suggestions = find_similar("heal", &candidates);
    assert!(suggestions.len() <= 3);
}

#[test]
fn find_similar_sorts_and_keeps_first_three() {
    let candidates = vec![
        "healing".to_string(),
        "health".to_string(),
        "healer".to_string(),
        "heal".to_string(),
    ];
    let suggestions = find_similar("heal", &candidates);
    assert_eq!(suggestions, vec!["heal", "healer", "healing"]);
}

#[test]
fn find_similar_ignores_case() {
    let candidates = vec!["Health".to_string()];
    assert_eq!(find_similar("HEAL", &candidates), vec!["Health"]);
}

#[test]
fn find_similar_distance_threshold_is_forty_percent() {
    // "abcde" vs "abxyz": distance 3 of 5 (60%) is too far; "abcdz": 1 of 5 is close.
    let candidates = vec!["abxyz".to_string(), "abcdz".to_string()];
    assert_eq!(find_similar("abcde", &candidates), vec!["abcdz"]);
    // distance 2 of 5 (exactly 40%) still counts.
    let candidates = vec!["abcyz".to_string()];
    assert_eq!(find_similar("abcde", &candidates), vec!["abcyz"]);
}

#[test]
fn levenshtein_is_a_distance() {
    let pairs = [("kitten", "sitting"), ("", "abc"), ("flaw", "lawn"), ("héllo", "hello"), ("same", "same")];
    for (a, b) in pairs {
        let d = levenshtein_distance(a, b);
        let (m, n) = (a.chars().count(), b.chars().count());
        assert_eq!(d, levenshtein_distance(b, a));
        assert_eq!(d == 0, a == b);
        assert!(m.abs_diff(n) <= d && d <= m.max(n));
    }
}
