use wordlib::{CharSet, Knowledge, char_freq, coverage_guesses, freq_scored_guesses, word_score};

const WORDS: [&str; 5] = ["crane", "trace", "slate", "shale", "plate"];

#[test]
fn char_freq_counts_every_occurrence() {
    let freq = char_freq(&WORDS);
    // Hand-counted letter tallies over the five words.
    assert_eq!(freq.get('a'), 5);
    assert_eq!(freq.get('e'), 5);
    assert_eq!(freq.get('l'), 3);
    assert_eq!(freq.get('t'), 3);
    assert_eq!(freq.get('r'), 2);
    assert_eq!(freq.get('s'), 2);
    assert_eq!(freq.get('c'), 2);
    assert_eq!(freq.get('n'), 1);
    assert_eq!(freq.get('h'), 1);
    assert_eq!(freq.get('p'), 1);
    assert_eq!(freq.get('z'), 0);
    assert_eq!(freq.len(), 10);
}

#[test]
fn char_freq_counts_repeats_within_a_word() {
    let words = ["geese"];
    let freq = char_freq(&words);
    assert_eq!(freq.get('e'), 3);
    assert_eq!(freq.get('g'), 1);
    assert_eq!(freq.get('s'), 1);
    assert_eq!(freq.len(), 3);
}

#[test]
fn word_score_counts_unique_uncovered_letters() {
    let freq = char_freq(&WORDS);
    let covered = CharSet::new();
    // slate = s2 + l3 + a5 + t3 + e5 = 18
    assert_eq!(word_score("slate", &freq, &covered), 18);
    // trace = t3 + r2 + a5 + c2 + e5 = 17
    assert_eq!(word_score("trace", &freq, &covered), 17);
    // geese scores g0 + e5 + s2: the repeated 'e's count once.
    assert_eq!(word_score("geese", &freq, &covered), 7);
}

#[test]
fn word_score_skips_covered_letters() {
    let freq = char_freq(&WORDS);
    let mut covered = CharSet::new();
    covered.insert('a');
    covered.insert('e');
    // slate without a and e = s2 + l3 + t3 = 8
    assert_eq!(word_score("slate", &freq, &covered), 8);
}

#[test]
fn freq_scored_guesses_sorts_descending() {
    let freq = char_freq(&WORDS);
    let covered = CharSet::new();
    let scored = freq_scored_guesses(&WORDS, &freq, &covered);
    assert_eq!(scored.len(), 5);
    // crane 15, trace 17, slate 18, shale 16, plate 17.
    assert_eq!(scored[0], ("slate", 18));
    assert_eq!(scored[1], ("trace", 17));
    assert_eq!(scored[2], ("plate", 17));
    assert_eq!(scored[3], ("shale", 16));
    assert_eq!(scored[4], ("crane", 15));
}

#[test]
fn coverage_guesses_covers_the_whole_alphabet() {
    // The greedy pass picks the best-scoring word each round until
    // every recorded letter is covered.
    let freq = char_freq(&WORDS);
    let mut covered = CharSet::new();
    let picks = coverage_guesses(&WORDS, &freq, &mut covered);
    assert_eq!(picks, vec!["slate", "crane", "plate", "shale"]);
    // The union of letters across all picks equals the alphabet of the
    // word set.
    for c in ['a', 'e', 'l', 't', 'r', 's', 'c', 'n', 'h', 'p'] {
        assert!(covered.contains(c));
    }
    assert_eq!(covered.len(), 10);
    let mut union = CharSet::new();
    for w in &picks {
        for c in w.chars() {
            union.insert(c);
        }
    }
    assert_eq!(union.len(), 10);
}

#[test]
fn coverage_guesses_respects_already_covered_letters() {
    let freq = char_freq(&WORDS);
    let mut covered = CharSet::new();
    for c in "slate".chars() {
        covered.insert(c);
    }
    let picks = coverage_guesses(&WORDS, &freq, &mut covered);
    // With s, l, a, t, e pre-covered the best first pick is crane
    // (c2 + r2 + n1 = 5), then plate (p), then shale (h).
    assert_eq!(picks[0], "crane");
}

#[test]
fn charset_tracks_distinct_characters() {
    let mut s = CharSet::new();
    assert_eq!(s.len(), 0);
    s.insert('a');
    s.insert('b');
    s.insert('a');
    assert_eq!(s.len(), 2);
    assert!(s.contains('a'));
    assert!(s.contains('b'));
    assert!(!s.contains('c'));
    let d = s.duplicate();
    assert_eq!(d.len(), 2);
    let mut t = CharSet::new();
    t.insert('b');
    t.insert('z');
    s.extend_from(&t);
    assert_eq!(s.len(), 3);
    assert!(s.contains('z'));
    s.add_str_chars("geese");
    assert!(s.contains('g') && s.contains('e') && s.contains('s'));
    assert_eq!(s.len(), 6);
    assert!(s.subset_of_chars("zabges"));
    assert!(!s.subset_of_chars("zabge"));
}

#[test]
fn freq_pairs_expose_first_seen_order() {
    let words = ["ba", "ab"];
    let freq = char_freq(&words);
    let pairs = freq.pairs();
    assert_eq!(pairs.as_slice(), &[('b', 2), ('a', 2)]);
}

#[test]
fn knowledge_covered_feeds_scoring() {
    // End to end: letters the knowledge accounts for stop earning points.
    let mut k = Knowledge::new(5);
    k.learn("slate", "crane");
    let freq = char_freq(&WORDS);
    let covered = k.get_covered();
    // covered = {s, l, t} absent plus {a, e} present.
    // crane = c2 + r2 + n1 = 5 once a and e are covered.
    assert_eq!(word_score("crane", &freq, &covered), 5);
}
