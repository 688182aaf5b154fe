//! A solver core for a fixed-length word-guessing game.
//!
//! The library tracks what has been learned about a hidden answer word
//! (confirmed positions, letters known present, letters known absent),
//! filters a word list down to the candidates consistent with that
//! knowledge, and ranks possible next guesses either by letter-frequency
//! coverage or by the distribution of feedback patterns a guess would
//! induce over the remaining candidates.

mod charset;
mod freq;
mod knowledge;
mod outcome;
mod strategy;
mod text;

pub use charset::CharSet;
pub use freq::{
    CharFreq, char_freq, coverage_guesses, covered_after, coverage_score, freq_scored_guesses,
    greedy_pick_ok, letters_of, occ_all, occ_in, scored_pairs, with_score, word_score,
    word_score_spec,
};
pub use knowledge::{
    Knowledge, hint_of_pattern, learn_rel, learned_absent, learned_present,
    lemma_answer_self_consistent, lemma_empty_accepts, lemma_learn_follows_classifier,
    lemma_learn_idempotent,
    lemma_learn_keeps_answer, lemma_learn_monotone, pattern_hits, tries_absent, tries_miss_at,
    tries_present, word_absent, word_miss_cond, word_present,
};
pub use outcome::{
    LetterOutcome, first_occurrences, induced_patterns, lemma_distribution_mass,
    lemma_singleton_distribution, multiplicity, outcome_at, pattern_distribution, pattern_spec,
    patterns_equal, total_multiplicity,
};
pub use strategy::{
    EntropyStrategy, FreqStrategy, GuessPlan, GuessStrategy, candidates_of, covered_of,
    hamming_spec, index_of_max, keeps_word, min_hamming_spec, valid_words,
};
pub use text::{char_is_lowercase, str_contains_char, str_eq};
