use stringr::Stringr;

#[test]
fn wildcard_match_default() {
    assert!(stringr::wildcard_match_default("longteststring", "*teststring"));
    assert!(stringr::wildcard_match_default("longteststring", "*test*"));
    assert!(stringr::wildcard_match_default("longteststring", "l?ngt?st?tring"));
    assert!(stringr::wildcard_match_default("longteststring", "longteststring"));
    assert!(!stringr::wildcard_match_default("longteststring", "*else"));
}

#[test]
fn wildcard_match_casing() {
    assert!(stringr::wildcard_match("ABC", "abc", &'*', &'?', true));
    assert!(!stringr::wildcard_match("ABC", "abc", &'*', &'?', false));
    assert!("aBc".wildcard_match("Ab?", &'*', &'?', true));
}

#[test]
fn wildcard_match_casing_is_ascii_only() {
    assert!(!stringr::wildcard_match("Ä", "ä", &'*', &'?', true));
    assert!(stringr::wildcard_match("Ä", "Ä", &'*', &'?', true));
    assert!(!stringr::wildcard_match("[", "{", &'*', &'?', true));
}

#[test]
fn wildcard_match_empty_input() {
    assert!(stringr::wildcard_match("", "**", &'*', &'?', false));
    assert!(!stringr::wildcard_match("", "*a", &'*', &'?', false));
    assert!(stringr::wildcard_match("", "", &'*', &'?', false));
    assert!(!stringr::wildcard_match("a", "", &'*', &'?', false));
}

#[test]
fn wildcard_match_single_needs_one_scalar() {
    assert!(stringr::wildcard_match("a", "?", &'*', &'?', false));
    assert!(!stringr::wildcard_match("", "?", &'*', &'?', false));
    assert!(!stringr::wildcard_match("ab", "ab?", &'*', &'?', false));
    assert!(stringr::wildcard_match("é", "?", &'*', &'?', false));
}

#[test]
fn wildcard_match_backtracking() {
    assert!(stringr::wildcard_match_default("abcbc", "*bc"));
    assert!(stringr::wildcard_match_default("aaaaaaaaaaaaaaaaaaaaaaaaaaaaab", "*a*a*a*a*a*b"));
    assert!(!stringr::wildcard_match_default("aaaaaaaaaaaaaaaaaaaaaaaaaaaaaa", "*a*a*a*a*a*b"));
}

#[test]
fn wildcard_match_custom_symbols() {
    assert!(stringr::wildcard_match("a*b", "a%b", &'%', &'_', false));
    assert!(stringr::wildcard_match("axyzb", "a%b", &'%', &'_', false));
    assert!(stringr::wildcard_match("axb", "a_b", &'%', &'_', false));
    assert!(!stringr::wildcard_match("a?b", "a*b", &'%', &'_', false));
    // a symbol that is both wildcards acts as the multi-scalar one
    assert!(stringr::wildcard_match("abc", "#", &'#', &'#', false));
}

#[test]
fn wildcard_match_non_ascii() {
    assert!(stringr::wildcard_match_default("grüße", "gr??e"));
    assert!(stringr::wildcard_match_default("日本語テキスト", "日*ト"));
    assert!(!stringr::wildcard_match_default("日本語", "日?"));
    assert!(String::from("naïve").wildcard_match("na*", &'*', &'?', false));
}
