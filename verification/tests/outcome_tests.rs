use wordlib::{LetterOutcome, pattern_distribution, patterns_equal};

#[test]
fn classifier_matches_naive_rule() {
    // guess "crane" against answer "trace": 'c' occurs elsewhere,
    // 'r', 'a' and 'e' are exact hits, 'n' occurs nowhere.
    let p = LetterOutcome::pattern("crane", "trace");
    assert_eq!(
        p,
        vec![
            LetterOutcome::Miss,
            LetterOutcome::Hit,
            LetterOutcome::Hit,
            LetterOutcome::Absent,
            LetterOutcome::Hit,
        ]
    );
}

#[test]
fn classifier_does_not_cap_repeated_letters() {
    // The naive containment rule marks every copy of a repeated guess
    // letter as present, even when the answer holds it only once.
    let p = LetterOutcome::pattern("geese", "crane");
    assert_eq!(
        p,
        vec![
            LetterOutcome::Absent,      // g
            LetterOutcome::Miss,        // first e, contained in crane
            LetterOutcome::Miss,        // second e, still marked contained
            LetterOutcome::Absent,      // s
            LetterOutcome::Hit,         // final e in place
        ]
    );
}

#[test]
fn patterns_equal_compares_elementwise() {
    let a = LetterOutcome::pattern("crane", "trace");
    let b = LetterOutcome::pattern("crane", "trace");
    let c = LetterOutcome::pattern("crane", "crane");
    assert!(patterns_equal(&a, &b));
    assert!(!patterns_equal(&a, &c));
}

#[test]
fn distribution_groups_candidates_by_pattern() {
    let candidates = vec!["crane", "trace", "slate", "shale", "plate"];
    let dist = pattern_distribution(&candidates, "slate");
    // The counts are each at least one and together account for every
    // candidate.
    let total: usize = dist.iter().map(|(_, c)| *c).sum();
    assert_eq!(total, candidates.len());
    for (_, c) in &dist {
        assert!(*c >= 1);
    }
    // The pattern of "slate" against itself (all hits) occurs exactly
    // once.
    let all_hits = vec![LetterOutcome::Hit; 5];
    let hit_count: usize = dist
        .iter()
        .filter(|(p, _)| patterns_equal(p, &all_hits))
        .map(|(_, c)| *c)
        .sum();
    assert_eq!(hit_count, 1);
}

#[test]
fn entropy_of_single_candidate_is_zero() {
    // One candidate leaves one pattern of probability one: the guess
    // carries exactly zero bits of information.
    let candidates = vec!["trace"];
    let dist = pattern_distribution(&candidates, "crane");
    assert_eq!(dist.len(), 1);
    assert_eq!(dist[0].1, 1);
    let n = candidates.len() as f32;
    let entropy: f32 = dist
        .iter()
        .map(|(_, c)| {
            let p = *c as f32 / n;
            p * -p.log2()
        })
        .sum();
    assert_eq!(entropy, 0.0);
}
