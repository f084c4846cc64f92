use wordy::Tiles;

/// Build a pattern from a five-letter code: G = Green, Y = Yellow,
/// X = Grey.
fn tiles_of(code: &str) -> [Tiles; 5] {
    let mut out = [Tiles::Grey; 5];
    for (i, c) in code.chars().enumerate() {
        out[i] = match c {
            'G' => Tiles::Green,
            'Y' => Tiles::Yellow,
            'X' => Tiles::Grey,
            _ => panic!("unknown tile code"),
        };
    }
    out
}

#[test]
fn check_tiles_macro() {
    assert_eq!(
        tiles_of("GYXGG"),
        [
            Tiles::Green,
            Tiles::Yellow,
            Tiles::Grey,
            Tiles::Green,
            Tiles::Green
        ]
    );
}

#[test]
fn all_green() {
    assert_eq!(Tiles::compute("abcde", "abcde"), tiles_of("GGGGG"));
    assert!(Tiles::matches("abcde", "abcde", &tiles_of("GGGGG")));
    assert!(!Tiles::matches("abcde", "abcde", &tiles_of("XXXXX")));
    assert!(!Tiles::matches("abcde", "abcde", &tiles_of("GGGGY")));
}

#[test]
fn all_grey() {
    assert_eq!(Tiles::compute("abcde", "fghij"), tiles_of("XXXXX"));
    assert!(Tiles::matches("abcde", "fghij", &tiles_of("XXXXX")));
    assert!(!Tiles::matches("abcde", "fghij", &tiles_of("GGGGG")));
}

#[test]
fn all_yellow() {
    assert_eq!(Tiles::compute("abcde", "eabcd"), tiles_of("YYYYY"));
    assert!(Tiles::matches("abcde", "eabcd", &tiles_of("YYYYY")));
    assert!(!Tiles::matches("abcde", "eabcd", &tiles_of("GGGGG")));
    assert!(!Tiles::matches("abcde", "eabcd", &tiles_of("XXXXX")));
    assert!(!Tiles::matches("abcde", "eabcd", &tiles_of("YYYGY")));
}

#[test]
fn one_wrong() {
    assert_eq!(Tiles::compute("ababa", "babab"), tiles_of("YYYYX"));
    assert!(Tiles::matches("ababa", "babab", &tiles_of("YYYYX")));
    assert!(!Tiles::matches("ababa", "babab", &tiles_of("YYXYX")));
    assert!(!Tiles::matches("ababa", "babab", &tiles_of("YYGYX")));
    assert!(!Tiles::matches("ababa", "babab", &tiles_of("YGYYX")));
    assert!(!Tiles::matches("ababa", "babab", &tiles_of("YYYYY")));
}

#[test]
fn typical_case() {
    assert_eq!(Tiles::compute("hello", "world"), tiles_of("XXXGY"));
    assert!(Tiles::matches("hello", "world", &tiles_of("XXXGY")));
    assert!(!Tiles::matches("hello", "world", &tiles_of("XXXXY")));
    assert!(!Tiles::matches("hello", "world", &tiles_of("XXXYY")));
    assert!(!Tiles::matches("hello", "world", &tiles_of("XXYGY")));
    assert!(!Tiles::matches("hello", "world", &tiles_of("XGXGY")));
}

#[test]
fn permutations_has_243_distinct_patterns() {
    let v = Tiles::permutations();
    assert_eq!(v.len(), 243);
    for i in 0..v.len() {
        for j in 0..i {
            assert_ne!(v[i], v[j]);
        }
    }
}

#[test]
fn permutations_is_restartable() {
    let a = Tiles::permutations();
    let b = Tiles::permutations();
    assert_eq!(a, b);
}

#[test]
fn matches_agrees_with_compute_on_every_pattern() {
    let pairs = [
        ("abcde", "abcde"),
        ("abcde", "eabcd"),
        ("ababa", "babab"),
        ("hello", "world"),
        ("aabbc", "bbaac"),
    ];
    for (g, c) in pairs {
        let computed = Tiles::compute(g, c);
        for p in Tiles::permutations() {
            assert_eq!(Tiles::matches(g, c, &p), computed == p);
        }
    }
}

#[test]
fn duplicate_letters_consume_left_to_right() {
    // the first guess l is an exact match; the second consumes the
    // leftmost free l of the answer; the rest find nothing
    assert_eq!(Tiles::compute("llama", "lolly"), tiles_of("GYXXX"));
    assert!(Tiles::matches("llama", "lolly", &tiles_of("GYXXX")));
    assert!(!Tiles::matches("llama", "lolly", &tiles_of("GYYXX")));
}
