use wordle_solver::feedback::{Feedback, Status};
use wordle_solver::game::{default_opening, simulate, Game};
use wordle_solver::word::Word;

fn w(s: &str) -> Word {
    Word::from_text(s).unwrap()
}

fn ws(list: &[&str]) -> Vec<Word> {
    list.iter().map(|s| w(s)).collect()
}

#[test]
fn default_opening_is_roate() {
    assert_eq!(default_opening(), w("roate"));
}

#[test]
fn scenario_crane_then_trace() {
    let dict = ws(&["crane", "slate", "trace"]);
    let mut game = Game::new(&dict, w("crane"));
    assert_eq!(game.turns, 0);
    let first = Feedback::compute(game.guess, w("trace")).status;
    assert_eq!(
        first,
        [Status::Present, Status::Exact, Status::Exact, Status::Absent, Status::Exact]
    );
    assert_eq!(game.step(&dict, first), None);
    assert_eq!(game.candidates, ws(&["trace"]));
    assert_eq!(game.guess, w("trace"));
    let second = Feedback::compute(game.guess, w("trace")).status;
    assert_eq!(game.step(&dict, second), Some(2));
    assert_eq!(simulate(w("trace"), &dict, &dict, w("crane"), 10), Some(2));
}

#[test]
fn contradictory_feedback_resets_to_guess_dictionary() {
    let answers = ws(&["crane", "slate"]);
    let full = ws(&["crane", "slate", "trace", "brace"]);
    let mut game = Game::new(&answers, w("crane"));
    assert_eq!(game.step(&full, [Status::Present; 5]), None);
    assert_eq!(game.candidates, full);
    assert_eq!(game.guess, w("crane"));
    assert_eq!(game.turns, 1);
}

#[test]
fn few_candidates_guess_the_first() {
    let answers = ws(&["crane", "trace", "brace"]);
    let mut game = Game::new(&answers, w("slate"));
    let fb = Feedback::compute(w("slate"), w("brace")).status;
    assert_eq!(game.step(&answers, fb), None);
    assert_eq!(game.candidates, ws(&["crane", "brace"]));
    assert_eq!(game.guess, w("crane"));
    let fb = Feedback::compute(game.guess, w("brace")).status;
    assert_eq!(game.step(&answers, fb), None);
    assert_eq!(game.candidates, ws(&["brace"]));
    assert_eq!(game.guess, w("brace"));
    let fb = Feedback::compute(game.guess, w("brace")).status;
    assert_eq!(game.step(&answers, fb), Some(3));
}

#[test]
fn many_candidates_use_the_search() {
    let answers = ws(&["crane", "slate", "trace", "brace", "grace"]);
    let full = ws(&["dummy", "crane", "slate", "trace", "brace", "grace"]);
    let mut game = Game::new(&answers, w("dummy"));
    let fb = Feedback::compute(w("dummy"), w("grace")).status;
    assert_eq!(game.step(&full, fb), None);
    assert_eq!(game.candidates, answers);
    assert_ne!(game.guess, w("dummy"));
}

#[test]
fn every_answer_is_found_in_simulation() {
    let answers = ws(&["crane", "slate", "trace", "brace", "grace", "alloy", "loyal", "eerie"]);
    let mut full = answers.clone();
    full.push(w("roate"));
    for a in &answers {
        let n = simulate(*a, &full, &answers, default_opening(), 20);
        assert!(matches!(n, Some(k) if k >= 1 && k <= answers.len()), "{:?}", a);
    }
}

#[test]
fn simulation_stops_at_turn_limit() {
    let dict = ws(&["crane", "slate", "trace"]);
    assert_eq!(simulate(w("trace"), &dict, &dict, w("crane"), 1), None);
}

#[test]
fn simulation_takes_one_guess_when_opening_is_the_answer() {
    let dict = ws(&["crane", "slate", "trace"]);
    assert_eq!(simulate(w("crane"), &dict, &dict, w("crane"), 10), Some(1));
    assert_eq!(simulate(w("slate"), &dict, &dict, w("crane"), 1), None);
}

#[test]
fn strict_step_leaves_candidates_empty() {
    let answers = ws(&["crane", "slate"]);
    let full = ws(&["crane", "slate", "trace", "brace"]);
    let mut game = Game::new(&answers, w("crane"));
    assert_eq!(game.step_strict(&full, [Status::Present; 5]), None);
    assert!(game.candidates.is_empty());
    assert_eq!(game.guess, w("crane"));
    assert_eq!(game.turns, 1);
}

#[test]
fn strict_step_matches_lenient_step_when_candidates_remain() {
    let answers = ws(&["crane", "trace", "brace"]);
    let mut lenient = Game::new(&answers, w("slate"));
    let mut strict = Game::new(&answers, w("slate"));
    let fb = Feedback::compute(w("slate"), w("brace")).status;
    assert_eq!(lenient.step(&answers, fb), strict.step_strict(&answers, fb));
    assert_eq!(lenient.candidates, strict.candidates);
    assert_eq!(lenient.guess, strict.guess);
}

#[test]
fn simulation_of_distinct_answers_ends_within_list_size_plus_one() {
    let answers = ws(&["crane", "slate", "trace", "brace", "grace", "place"]);
    let full = ws(&["dummy", "crane", "slate", "trace", "brace", "grace", "place"]);
    for a in &answers {
        let n = simulate(*a, &full, &answers, w("dummy"), answers.len() + 1);
        assert!(matches!(n, Some(k) if k >= 1 && k <= answers.len() + 1), "{:?}", a);
    }
}
