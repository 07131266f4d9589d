use mini_hybrid_retrieval::text::{make_snippet, tokenize, truncate};

#[test]
fn test_tokenize() {
    let result = tokenize("Hello, world! This is Rust.");
    assert_eq!(result, vec!["hello", "world", "this", "is", "rust"]);
}

#[test]
fn test_tokenize_empty() {
    let result = tokenize("");
    assert!(result.is_empty());
}

#[test]
fn tokenize_unicode_and_digits() {
    let result = tokenize("ÄPFEL--2024,,B3 ok");
    assert_eq!(result, vec!["äpfel", "2024", "b3", "ok"]);
    assert!(tokenize("  ,;!  ").is_empty());
}

#[test]
fn truncate_short_text_unchanged() {
    assert_eq!(truncate("hello", 5), "hello");
    assert_eq!(truncate("hello", 80), "hello");
    assert_eq!(truncate("", 0), "");
}

#[test]
fn truncate_long_text_adds_ellipsis() {
    assert_eq!(truncate("hello world", 5), "hello...");
    assert_eq!(truncate("abc", 0), "...");
}

#[test]
fn truncate_backs_off_to_char_boundary() {
    // "é" takes two bytes: cutting after one byte falls inside it.
    assert_eq!(truncate("aé b", 2), "a...");
    assert_eq!(truncate("aé b", 3), "aé...");
}

#[test]
fn make_snippet_without_positions_takes_first_ten_tokens() {
    let text = "one two three four five six seven eight nine ten eleven twelve";
    assert_eq!(
        make_snippet(text, None),
        "one two three four five six seven eight nine ten..."
    );
    assert_eq!(make_snippet("Short text here.", None), "short text here");
}

#[test]
fn make_snippet_starts_three_tokens_before_first_position() {
    let text = "t0 t1 t2 t3 t4 t5 t6 t7 t8 t9 t10 t11 t12 t13 t14 t15";
    let positions = vec![9, 6];
    assert_eq!(
        make_snippet(text, Some(&positions)),
        "...t3 t4 t5 t6 t7 t8 t9 t10 t11 t12..."
    );
    let late = vec![12];
    assert_eq!(make_snippet(text, Some(&late)), "...t9 t10 t11 t12 t13 t14 t15");
    let empty: Vec<usize> = Vec::new();
    assert_eq!(
        make_snippet(text, Some(&empty)),
        "t0 t1 t2 t3 t4 t5 t6 t7 t8 t9..."
    );
}

#[test]
fn make_snippet_past_the_end_truncates_text() {
    let text = "alpha beta";
    let far = vec![50];
    assert_eq!(make_snippet(text, Some(&far)), "alpha beta");
    assert_eq!(make_snippet("!!!", None), "!!!");
}

#[test]
fn truncate_stays_within_three_extra_bytes() {
    let s = "ééééé";
    for max_len in 0..12 {
        let r = truncate(s, max_len);
        assert!(r.len() <= max_len + 3);
    }
    assert_eq!(truncate(s, 3), "é...");
}

#[test]
fn tokenize_splits_at_a_space() {
    let a = "Rust, fast!";
    let b = "SAFE-code 42";
    let mut joined = tokenize(a);
    joined.extend(tokenize(b));
    assert_eq!(tokenize(&format!("{} {}", a, b)), joined);
    assert_eq!(joined, vec!["rust", "fast", "safe", "code", "42"]);
}
