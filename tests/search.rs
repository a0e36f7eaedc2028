use wordle_solver::feedback::Feedback;
use wordle_solver::search::{best_word, filter, found, remaining, score};
use wordle_solver::word::Word;

fn w(s: &str) -> Word {
    Word::from_text(s).unwrap()
}

fn ws(list: &[&str]) -> Vec<Word> {
    list.iter().map(|s| w(s)).collect()
}

#[test]
fn found_counts_consistent_words() {
    let words = ws(&["crane", "slate", "trace", "brace"]);
    let fb = Feedback::compute(w("slate"), w("brace"));
    assert_eq!(found(fb, &words), 2);
    assert_eq!(remaining(w("slate"), w("brace"), &words), 2);
    assert_eq!(remaining(w("slate"), w("trace"), &words), 1);
}

#[test]
fn filter_keeps_consistent_words_in_order() {
    let mut words = ws(&["crane", "slate", "trace", "brace"]);
    let fb = Feedback::compute(w("slate"), w("brace"));
    filter(fb, &mut words);
    assert_eq!(words, ws(&["crane", "brace"]));
}

#[test]
fn filter_never_grows_the_set() {
    let start = ws(&["crane", "slate", "trace", "brace", "alloy", "loyal"]);
    for g in &start {
        for a in &start {
            let mut words = start.clone();
            filter(Feedback::compute(*g, *a), &mut words);
            assert!(words.len() <= start.len());
            assert!(words.contains(a));
        }
    }
}

#[test]
fn filter_on_empty_set_stays_empty() {
    let mut words: Vec<Word> = Vec::new();
    filter(Feedback::compute(w("crane"), w("trace")), &mut words);
    assert!(words.is_empty());
}

#[test]
fn score_sums_remaining_candidates() {
    let cands = ws(&["crane", "slate", "trace"]);
    assert_eq!(score(w("crane"), &cands), 3);
    assert_eq!(score(w("slate"), &cands), 3);
    assert_eq!(score(w("dummy"), &cands), 9);
}

#[test]
fn score_of_empty_set_is_zero() {
    assert_eq!(score(w("crane"), &Vec::new()), 0);
}

#[test]
fn best_word_picks_least_score() {
    let cands = ws(&["crane", "slate", "trace"]);
    let full = ws(&["dummy", "slate", "crane"]);
    assert_eq!(best_word(&full, &cands), w("slate"));
}

#[test]
fn best_word_breaks_ties_by_dictionary_order() {
    let cands = ws(&["crane", "slate", "trace"]);
    assert_eq!(best_word(&ws(&["crane", "slate"]), &cands), w("crane"));
    assert_eq!(best_word(&ws(&["slate", "crane"]), &cands), w("slate"));
}
