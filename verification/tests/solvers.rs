use wordy::{Candidate, Entropy, Guess, Naive, Pool, Repeater, Solver, Tiles, Wordle};

fn cand(word: &str, freq: u64) -> Candidate {
    Candidate {
        word: word.to_string(),
        freq,
    }
}

/// An entropy solver whose pool holds exactly these words, all equally
/// likely, opening with the first of them.
fn entropy_seeded_with(words: &[&str]) -> Entropy {
    let entries = words.iter().map(|w| cand(w, 1)).collect();
    Entropy::new(entries, words[0].to_string())
}

#[test]
fn naive_opens_with_most_frequent_word() {
    let mut solver = Naive::new(vec![cand("slate", 3), cand("crane", 9), cand("whoop", 5)]);
    assert_eq!(solver.guess(&[]), "crane");
}

#[test]
fn naive_filters_by_last_feedback() {
    // guessing "aaaaa" against the answer "bbbbb" paints every tile grey,
    // so only words without an "a" survive
    let mut solver = Naive::new(vec![cand("aaaaa", 10), cand("abbbb", 7), cand("bbbbb", 5)]);
    let history = vec![Guess {
        word: "aaaaa".to_string(),
        result: Tiles::compute("aaaaa", "bbbbb"),
    }];
    assert_eq!(solver.guess(&history), "bbbbb");
}

#[test]
fn pool_sorts_descending_and_keeps_ties_in_order() {
    let pool = Pool::new(vec![
        cand("first", 2),
        cand("heavy", 9),
        cand("tied1", 4),
        cand("tied2", 4),
    ]);
    assert_eq!(pool.len(), 4);
    assert_eq!(pool.get(0).word, "heavy");
    assert_eq!(pool.get(1).word, "tied1");
    assert_eq!(pool.get(2).word, "tied2");
    assert_eq!(pool.get(3).word, "first");
}

#[test]
fn pool_filter_keeps_exactly_the_consistent_candidates() {
    let words = ["aaaaa", "abbbb", "babab", "bbbbb", "aabba"];
    let mut pool = Pool::new(words.iter().map(|w| cand(w, 1)).collect());
    let pattern = Tiles::compute("aaaaa", "abbbb");
    pool.filter("aaaaa", &pattern);
    // every survivor is consistent with the observed feedback
    let mut survivors = Vec::new();
    for i in 0..pool.len() {
        let c = pool.get(i);
        assert!(Tiles::matches("aaaaa", c.word.as_str(), &pattern));
        survivors.push(c.word.clone());
    }
    // and no removed word is
    for w in words {
        if !survivors.iter().any(|s| s == w) {
            assert!(!Tiles::matches("aaaaa", w, &pattern));
        }
    }
    assert_eq!(survivors, vec!["abbbb".to_string()]);
}

#[test]
fn play_counts_rounds() {
    // round one guesses the most frequent word, round two the survivor
    let solver = Naive::new(vec![cand("world", 2), cand("hello", 1)]);
    assert_eq!(Wordle::play("hello", solver, 6), Some(2));
}

#[test]
fn play_reports_immediate_hit() {
    let solver = Naive::new(vec![cand("hello", 2), cand("world", 1)]);
    assert_eq!(Wordle::play("hello", solver, 6), Some(1));
}

#[test]
fn entropy_single_candidate_wins_in_one() {
    let solver = entropy_seeded_with(&["hello"]);
    assert_eq!(Wordle::play("hello", solver, 6), Some(1));
}

#[test]
fn entropy_goes_for_the_win_on_small_pools() {
    // fewer than ten survivors: the most frequent consistent word is
    // played directly after the opening
    let mut solver = Entropy::new(
        vec![cand("aaaaa", 1), cand("bbbbb", 9), cand("abbbb", 4)],
        "aaaaa".to_string(),
    );
    let history = vec![Guess {
        word: "aaaaa".to_string(),
        result: Tiles::compute("aaaaa", "bbbbb"),
    }];
    assert_eq!(solver.guess(&history), "bbbbb");
}

#[test]
fn entropy_solves_within_budget() {
    let words = ["crane", "slate", "bring", "fudge", "pivot"];
    let solver = entropy_seeded_with(&words);
    let rounds = Wordle::play("pivot", solver, 6);
    assert!(rounds.is_some());
    assert!(rounds.unwrap() <= 6);
}

#[test]
fn repeater_never_solves_within_any_budget() {
    let solver = Repeater::new("world".to_string());
    assert_eq!(Wordle::play("hello", solver, 32), None);
}

#[test]
fn repeater_hits_its_own_word() {
    let solver = Repeater::new("hello".to_string());
    assert_eq!(Wordle::play("hello", solver, 32), Some(1));
}

#[test]
fn expected_information_of_even_split_is_exact() {
    // four equally likely candidates, each earning a different pattern
    // for the guess: two bits of information, scaled by the mass and by
    // 65536
    let pool = Pool::new(vec![
        cand("aaaaa", 1),
        cand("bbbbb", 1),
        cand("abbbb", 1),
        cand("babbb", 1),
    ]);
    let sc = wordy::algorithms::entropy::expected_information(&pool, "aabbb");
    assert_eq!(sc, 4 * 2 * 65536);
}

#[test]
fn expected_information_of_uninformative_guess_is_zero() {
    // both candidates earn the same pattern: the guess carries nothing
    let pool = Pool::new(vec![cand("aaaaa", 3), cand("aaaab", 0)]);
    let sc = wordy::algorithms::entropy::expected_information(&pool, "zzzzz");
    assert_eq!(sc, 0);
}

#[test]
fn expected_information_stays_under_the_pattern_bound() {
    // log2 of 243 is just under 7.925 bits; scores are scaled by the
    // pool mass and by 65536
    let words = [
        "aaaaa", "bbbbb", "ccccc", "ddddd", "eeeee", "abcde", "edcba", "aabbc", "ccbba", "cabed",
    ];
    let pool = Pool::new(words.iter().map(|w| cand(w, 3)).collect());
    let mass: u128 = 3 * words.len() as u128;
    for w in words {
        let sc = wordy::algorithms::entropy::expected_information(&pool, w);
        assert!(sc <= mass * 519426);
    }
}

#[test]
fn entropy_scores_a_large_pool() {
    // twelve survivors: the entropy branch scores candidates and plays
    // one of them, deterministically
    let words = [
        "aabbb", "bbaaa", "ababa", "babab", "aaabb", "bbbaa", "abbba", "baaab", "aabab", "bbaba",
        "abaab", "babba",
    ];
    let mut solver = entropy_seeded_with(&words);
    // an all-grey round keeps every candidate alive
    let history = vec![Guess {
        word: "zzzzz".to_string(),
        result: Tiles::compute("zzzzz", "ababa"),
    }];
    let g = solver.guess(&history);
    assert!(words.contains(&g.as_str()));
    let mut again = entropy_seeded_with(&words);
    assert_eq!(again.guess(&history), g);
}

#[test]
fn entropy_end_to_end_on_a_dozen_words() {
    let words = [
        "aabbb", "bbaaa", "ababa", "babab", "aaabb", "bbbaa", "abbba", "baaab", "aabab", "bbaba",
        "abaab", "babba",
    ];
    let solver = entropy_seeded_with(&words);
    let rounds = Wordle::play("babba", solver, 32);
    assert!(rounds.is_some());
}
