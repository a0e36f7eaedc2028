use wordle_solver::feedback::{is_win, Feedback, Status};
use wordle_solver::word::{Word, WordleError};

fn w(s: &str) -> Word {
    Word::from_text(s).unwrap()
}

fn st(s: &str) -> [Status; 5] {
    Feedback::mask(s).unwrap()
}

#[test]
fn word_from_text_accepts_five_letters() {
    let word = w("crane");
    assert_eq!(word.letters, ['c', 'r', 'a', 'n', 'e']);
    assert_eq!(word.letter(2), 'a');
    assert_eq!(Word::new(['c', 'r', 'a', 'n', 'e']), word);
}

#[test]
fn word_from_text_rejects_wrong_length() {
    assert_eq!(Word::from_text("cran"), Err(WordleError::MalformedWord));
    assert_eq!(Word::from_text("cranes"), Err(WordleError::MalformedWord));
    assert_eq!(Word::from_text(""), Err(WordleError::MalformedWord));
}

#[test]
fn word_from_text_rejects_non_letters() {
    assert_eq!(Word::from_text("cr4ne"), Err(WordleError::MalformedWord));
    assert_eq!(Word::from_text("cra e"), Err(WordleError::MalformedWord));
}

#[test]
fn compute_alloy_against_loyal_counts_each_l_once() {
    let fb = Feedback::compute(w("alloy"), w("loyal"));
    assert_eq!(fb.word, w("alloy"));
    assert_eq!(fb.status, st("~~~~~"));
}

#[test]
fn compute_speed_against_abide() {
    assert_eq!(Feedback::compute(w("speed"), w("abide")).status, st("..~.~"));
}

#[test]
fn compute_eerie_against_there() {
    assert_eq!(Feedback::compute(w("eerie"), w("there")).status, st("~.~.="));
}

#[test]
fn compute_second_pass_skips_exact_positions() {
    assert_eq!(Feedback::compute(w("geese"), w("eerie")).status, st(".=~.="));
}

#[test]
fn compute_same_word_is_all_exact() {
    let fb = Feedback::compute(w("trace"), w("trace"));
    assert_eq!(fb.status, [Status::Exact; 5]);
    assert!(is_win(&fb.status));
}

#[test]
fn compute_crane_against_trace() {
    let fb = Feedback::compute(w("crane"), w("trace"));
    assert_eq!(
        fb.status,
        [Status::Present, Status::Exact, Status::Exact, Status::Absent, Status::Exact]
    );
    assert!(!is_win(&fb.status));
}

#[test]
fn answer_is_consistent_with_its_own_feedback() {
    let words = ["alloy", "loyal", "speed", "abide", "eerie", "there", "geese", "crane", "trace"];
    for g in words {
        for a in words {
            let fb = Feedback::compute(w(g), w(a));
            assert!(fb.valid(w(a)), "{} against {}", g, a);
        }
    }
}

#[test]
fn other_feedback_is_rejected() {
    let fb = Feedback::compute(w("crane"), w("trace"));
    assert!(!fb.valid(w("slate")));
    assert!(!fb.valid(w("crane")));
    assert!(fb.valid(w("trace")));
}

#[test]
fn check_rejects_guess_letter_at_absent_position() {
    let fb = Feedback::compute(w("llama"), w("world"));
    assert_eq!(fb.status, st("~...."));
    assert!(!fb.valid(w("blond")));
    assert_ne!(Feedback::compute(w("llama"), w("blond")).status, fb.status);
    let fb = Feedback::compute(w("salad"), w("abbey"));
    assert_eq!(fb.status, st(".~..."));
    assert!(!fb.valid(w("treat")));
    assert!(fb.valid(w("abbey")));
}

#[test]
fn check_handles_repeated_letters() {
    let fb = Feedback::input(w("eerie"), st("~.~.="));
    assert!(fb.valid(w("there")));
    assert!(!fb.valid(w("three")));
    assert!(!fb.valid(w("eerie")));
}

#[test]
fn new_feedback_is_all_absent() {
    let fb = Feedback::new(w("crane"));
    assert_eq!(fb.status, [Status::Absent; 5]);
}

#[test]
fn mask_reads_notation() {
    assert_eq!(
        Feedback::mask("=~.=~"),
        Ok([Status::Exact, Status::Present, Status::Absent, Status::Exact, Status::Present])
    );
}

#[test]
fn mask_rejects_unknown_symbol() {
    assert_eq!(Feedback::mask("=~x=~"), Err(WordleError::MalformedFeedback));
}

#[test]
fn mask_rejects_wrong_length() {
    assert_eq!(Feedback::mask("=~.="), Err(WordleError::MalformedFeedback));
    assert_eq!(Feedback::mask("=~.=~."), Err(WordleError::MalformedFeedback));
}

#[test]
fn symbols_map_both_ways() {
    for s in [Status::Exact, Status::Present, Status::Absent] {
        assert_eq!(Status::from_symbol(s.symbol()), Some(s));
    }
    assert_eq!(Status::from_symbol('x'), None);
}

#[test]
fn notation_round_trips_for_every_status_array() {
    let all = [Status::Exact, Status::Present, Status::Absent];
    for n in 0..243usize {
        let mut status = [Status::Absent; 5];
        let mut m = n;
        for slot in status.iter_mut() {
            *slot = all[m % 3];
            m /= 3;
        }
        let text: String = Feedback::notation(status).iter().collect();
        assert_eq!(Feedback::mask(&text), Ok(status));
    }
}

#[test]
fn notation_writes_symbols() {
    assert_eq!(Feedback::notation(st("=~.=~")), ['=', '~', '.', '=', '~']);
}

#[test]
fn word_from_text_lowers_case() {
    assert_eq!(Word::from_text("CRANE"), Ok(w("crane")));
    assert_eq!(Word::from_text("TrAcE"), Ok(w("trace")));
    assert_eq!(
        Feedback::compute(Word::from_text("CRANE").unwrap(), w("trace")).status,
        Feedback::compute(w("crane"), w("trace")).status
    );
}
