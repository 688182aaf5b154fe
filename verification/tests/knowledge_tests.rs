use wordlib::Knowledge;

#[test]
fn empty_knowledge_accepts_any_word_of_length() {
    let k = Knowledge::new(5);
    assert!(k.is_empty());
    assert!(k.check_word("crane"));
    assert!(k.check_word("zzzzz"));
    assert!(!k.check_word("care"));
    assert!(!k.check_word("cranes"));
}

#[test]
fn learned_answer_stays_candidate() {
    // Knowledge built from the answer's own hits accepts the answer.
    let mut k = Knowledge::new(5);
    k.learn("crane", "crane");
    assert!(k.check_word("crane"));
    assert!(!k.is_empty());
}

#[test]
fn learn_records_hits_misses_and_absents() {
    let mut k = Knowledge::new(5);
    k.learn("crane", "trace");
    // 'r', 'a', 'e' were hits; 'c' occurs elsewhere; 'n' nowhere.
    assert!(k.fits(&'r', 1));
    assert!(k.fits(&'a', 2));
    assert!(k.fits(&'e', 4));
    // 'c' cannot stay at position 0, where it failed.
    assert!(!k.fits(&'c', 0));
    // 'n' is absent everywhere.
    assert!(!k.fits(&'n', 0));
    assert!(!k.fits(&'n', 3));
    // The true answer passes the whole test.
    assert!(k.check_word("trace"));
    assert!(!k.check_word("crane"));
}

#[test]
fn learn_is_idempotent_on_check_word() {
    let words = ["crane", "trace", "slate", "shale", "plate", "zzzzz"];
    let mut once = Knowledge::new(5);
    once.learn("slate", "trace");
    let mut twice = Knowledge::new(5);
    twice.learn("slate", "trace");
    twice.learn("slate", "trace");
    for w in words {
        assert_eq!(once.check_word(w), twice.check_word(w));
    }
}

#[test]
fn learn_shrinks_candidate_set() {
    // Monotonicity: every candidate after a learning step was a
    // candidate before it.
    let words = ["crane", "trace", "slate", "shale", "plate"];
    let mut k = Knowledge::new(5);
    let before = k.filter(&words);
    k.learn("crane", "trace");
    let after = k.filter(&words);
    for w in &after {
        assert!(before.contains(w));
    }
    assert!(after.len() <= before.len());
}

#[test]
fn filter_keeps_order_and_consistent_words() {
    let words = ["crane", "trace", "slate", "shale", "plate"];
    let mut k = Knowledge::new(5);
    k.learn("ncrxx", "trace");
    // 'n' and 'x' absent; 'c' present but not at 1; 'r' present, not at 2.
    let cands = k.filter(&words);
    assert_eq!(cands, vec!["trace"]);
}

#[test]
fn from_tries_reconstructs_knowledge() {
    // Pattern confirms 'e' at the end; 'a' is known present; "slate"
    // was tried, so 'a' cannot stand at position 2.
    let k = Knowledge::from_tries("....e", "a", &["slate"]);
    assert!(k.fits(&'e', 4));
    assert!(k.fits(&'a', 0));
    assert!(!k.fits(&'a', 2));
    // Letters of "slate" outside the present set are absent.
    assert!(!k.fits(&'s', 0));
    assert!(!k.fits(&'l', 1));
    assert!(!k.fits(&'t', 3));
    assert!(!k.is_empty());
}

#[test]
fn from_tries_empty_inputs_gives_empty_knowledge() {
    let k = Knowledge::from_tries(".....", "", &[]);
    assert!(k.is_empty());
    assert!(k.check_word("crane"));
}

#[test]
fn from_tries_does_not_re_miss_confirmed_hits() {
    // "crane" was tried and 'c' is both present and confirmed at 0, so
    // trying it again must not exclude 'c' from position 0.
    let k = Knowledge::from_tries("c....", "c", &["crane"]);
    assert!(k.fits(&'c', 0));
    // 'r', 'a', 'n', 'e' are not in the present list, so they are absent.
    assert!(!k.fits(&'r', 2));
}

#[test]
fn get_covered_unions_present_and_absent() {
    let mut k = Knowledge::new(5);
    k.learn("crane", "trace");
    let covered = k.get_covered();
    // Present: c, r, a, e. Absent: n.
    for c in ['c', 'r', 'a', 'e', 'n'] {
        assert!(covered.contains(c));
    }
    assert!(!covered.contains('z'));
    assert_eq!(covered.len(), 5);
}

#[test]
fn check_word_requires_present_letters() {
    // After learning that 'c' occurs somewhere (but not where guessed),
    // a word without 'c' is no candidate even if every position fits.
    let mut k = Knowledge::new(5);
    k.learn("cxxxx", "tracy");
    assert!(!k.check_word("brain"));
    assert!(k.check_word("tracy"));
}
