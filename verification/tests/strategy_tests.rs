use wordlib::{
    EntropyStrategy, FreqStrategy, GuessPlan, GuessStrategy, Knowledge, index_of_max,
    pattern_distribution, valid_words,
};

const WORDS: [&str; 5] = ["crane", "trace", "slate", "shale", "plate"];

#[test]
fn freq_strategy_picks_best_coverage_word() {
    let k = Knowledge::new(5);
    let strat = FreqStrategy::new(&WORDS);
    // With nothing known, "slate" has the highest letter-coverage score.
    assert_eq!(strat.next_guess(&k), "slate");
}

#[test]
fn freq_strategy_answers_when_few_candidates_remain() {
    let mut k = Knowledge::new(5);
    k.learn("ncrxx", "trace");
    // Only "trace" is consistent now, so it is guessed outright.
    let strat = FreqStrategy::new(&WORDS);
    assert_eq!(strat.next_guess(&k), "trace");
}

#[test]
fn freq_strategy_breaks_score_ties_by_hamming_distance() {
    // Knowledge: 'e' occurs somewhere but not at position 0; 'x' occurs
    // nowhere. Candidates are the three words ending in 'e'; the two
    // guesses without 'e' tie for the top score, and "acbd" sits two
    // substitutions from "aabe" while "abcd" is three from everything.
    let words = ["abcd", "acbd", "aabe", "bbae", "ccde"];
    let k = Knowledge::from_tries("....", "e", &["exxx"]);
    let strat = FreqStrategy::new(&words);
    assert_eq!(strat.next_guess(&k), "acbd");
}

#[test]
fn entropy_plan_settles_on_last_candidates() {
    let mut k = Knowledge::new(5);
    k.learn("ncrxx", "trace");
    let strat = EntropyStrategy::new(&WORDS);
    match strat.plan_guess(&k) {
        GuessPlan::Settled(w) => assert_eq!(w, "trace"),
        _ => panic!("expected a settled guess"),
    }
}

#[test]
fn entropy_plan_uses_opening_book_with_no_information() {
    let k = Knowledge::new(5);
    let strat = EntropyStrategy::new(&WORDS);
    assert!(matches!(strat.plan_guess(&k), GuessPlan::OpeningBook));
    assert_eq!(EntropyStrategy::opening_guess(), "raise");
}

#[test]
fn entropy_plan_hands_out_candidates_for_scoring() {
    let words = ["crane", "trace", "slate", "shale", "plate", "xylyl"];
    let mut k = Knowledge::new(5);
    k.learn("ppppp", "trace");
    // 'p' is now known absent, which rules out exactly "plate": five of
    // the six words remain, fewer than all but more than two.
    let strat = EntropyStrategy::new(&words);
    match strat.plan_guess(&k) {
        GuessPlan::Evaluate(cands) => {
            assert_eq!(cands, vec!["crane", "trace", "slate", "shale", "xylyl"]);
        }
        _ => panic!("expected candidates for scoring"),
    }
}

#[test]
fn index_of_max_takes_last_of_equal_maxima() {
    let keys: Vec<u64> = vec![3, 7, 7, 2];
    assert_eq!(index_of_max(&keys), 2);
    let single: Vec<u64> = vec![5];
    assert_eq!(index_of_max(&single), 0);
}

#[test]
fn valid_words_filters_case_length_and_disallowed() {
    let all: Vec<String> = ["crane", "Crane", "cranes", "trace", "slate"]
        .iter()
        .map(|s| s.to_string())
        .collect();
    let disallowed: Vec<String> = vec!["trace".to_string()];
    let picked = valid_words(5, &all, &disallowed);
    assert_eq!(picked, vec!["crane", "slate"]);
}

#[test]
fn valid_words_empty_input_gives_no_words() {
    let all: Vec<String> = Vec::new();
    let picked = valid_words(5, &all, &[]);
    assert!(picked.is_empty());
}

/// The entropy of a guess over the candidate set, in bits.
fn entropy_of_guess(cands: &Vec<&str>, guess: &str) -> f32 {
    let dist = pattern_distribution(cands, guess);
    let n = cands.len() as f32;
    dist.iter()
        .map(|(_, c)| {
            let p = *c as f32 / n;
            p * -p.log2()
        })
        .sum()
}

/// One entropy-strategy guess, scoring through order-preserving integer
/// keys exactly as the library pins the tie-break.
fn entropy_next_guess<'a>(words: &'a [&'a str], k: &Knowledge) -> &'a str {
    let strat = EntropyStrategy::new(words);
    match strat.plan_guess(k) {
        GuessPlan::Settled(w) => w,
        GuessPlan::OpeningBook => EntropyStrategy::opening_guess(),
        GuessPlan::Evaluate(cands) => {
            let mut keys: Vec<u64> = Vec::new();
            for w in words {
                keys.push(entropy_of_guess(&cands, w).max(0.0).to_bits() as u64);
            }
            words[index_of_max(&keys)]
        }
    }
}

#[test]
fn entropy_strategy_solves_small_dictionary_quickly() {
    // A deterministic scaled-down version of the measurement harness:
    // every word of a small dictionary is used as the hidden answer and
    // the entropy strategy must solve each within the six-guess budget,
    // with a low average.
    let words = [
        "crane", "trace", "slate", "shale", "plate", "brick", "quilt", "ghost", "found",
        "mercy", "pixel", "sworn", "amber", "dough", "lemon", "vivid", "jazzy", "koala",
        "nymph", "wrung",
    ];
    let mut total_attempts: u64 = 0;
    let mut failures = 0;
    for answer in words {
        let mut k = Knowledge::new(5);
        let mut solved = false;
        let mut used: u64 = 0;
        for _attempt in 1..=6 {
            used += 1;
            let guess = entropy_next_guess(&words, &k);
            if guess == answer {
                solved = true;
                break;
            }
            k.learn(guess, answer);
        }
        total_attempts += used;
        if !solved {
            failures += 1;
        }
    }
    assert_eq!(failures, 0);
    let average = total_attempts as f32 / words.len() as f32;
    assert!(average < 4.1);
}

#[test]
fn freq_strategy_solves_small_dictionary() {
    let words = [
        "crane", "trace", "slate", "shale", "plate", "brick", "quilt", "ghost", "found",
        "mercy", "pixel", "sworn", "amber", "dough", "lemon",
    ];
    for answer in words {
        let mut k = Knowledge::new(5);
        let mut solved = false;
        let strat = FreqStrategy::new(&words);
        for _attempt in 1..=6 {
            let guess = strat.next_guess(&k);
            if guess == answer {
                solved = true;
                break;
            }
            k.learn(guess, answer);
        }
        assert!(solved, "failed to solve {}", answer);
    }
}
