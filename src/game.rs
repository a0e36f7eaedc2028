//! The game loop: play a guess, take its feedback, narrow the candidate
//! answers, and choose the next guess, until every letter is exact.
use vstd::prelude::*;
use crate::word::Word;
use crate::feedback::{
    Feedback, Status, all_exact, claimed, consistent, feedback_of, free_count, free_hit, is_win,
    lemma_answer_consistent, tag_count, tag_hit,
};
use crate::progress::{distinct_words, lemma_simulation_terminates, within};
use crate::search::{best_of, best_word, filter, survivors, keeps};

verus! {

/// A game in progress: the words still possible, the guess to play next, and
/// the number of guesses played so far.
#[derive(Debug)]
pub struct Game {
    pub candidates: Vec<Word>,
    pub guess: Word,
    pub turns: usize,
}

/// The opening guess that a game plays unless told otherwise.
pub fn default_opening() -> (w: Word)
    ensures
        w@ == seq!['r', 'o', 'a', 't', 'e'],
{
    let w = Word::new(['r', 'o', 'a', 't', 'e']);
    assert(w@ =~= seq!['r', 'o', 'a', 't', 'e']);
    w
}

impl Game {
    /// A new game over the answer dictionary `answers`, opening with `opening`.
    pub fn new(answers: &Vec<Word>, opening: Word) -> (g: Game)
        ensures
            g.candidates@ == answers@,
            g.guess == opening,
            g.turns == 0,
    {
        Game { candidates: answers.clone(), guess: opening, turns: 0 }
    }

    /// Plays the current guess, which received `status`: narrows the
    /// candidates to those consistent with it and returns the number of
    /// guesses when every status is exact. Otherwise chooses the next guess:
    /// with no candidate left, the candidates become the whole guess
    /// dictionary and the guess stays; with one or two, the first of them;
    /// with more, the best word of the guess dictionary over them.
    pub fn step(&mut self, full_words: &Vec<Word>, status: [Status; 5]) -> (won: Option<usize>)
        requires
            old(self).turns < usize::MAX,
            full_words.len() > 0,
            full_words.len() * full_words.len() <= usize::MAX,
            old(self).candidates.len() * old(self).candidates.len() <= usize::MAX,
        ensures
            turn_taken(*old(self), *final(self), full_words@, status@, won, true),
    {
        self.advance(full_words, status, true)
    }

    /// As `step`, but strict: when no candidate is consistent with the
    /// feedback, the candidates stay empty and the guess stays.
    pub fn step_strict(&mut self, full_words: &Vec<Word>, status: [Status; 5]) -> (won: Option<
        usize,
    >)
        requires
            old(self).turns < usize::MAX,
            full_words.len() > 0,
            full_words.len() * full_words.len() <= usize::MAX,
            old(self).candidates.len() * old(self).candidates.len() <= usize::MAX,
        ensures
            turn_taken(*old(self), *final(self), full_words@, status@, won, false),
    {
        self.advance(full_words, status, false)
    }

    /// One turn, resetting an emptied candidate set to the guess dictionary
    /// when `reset` holds.
    fn advance(&mut self, full_words: &Vec<Word>, status: [Status; 5], reset: bool) -> (won:
        Option<usize>)
        requires
            old(self).turns < usize::MAX,
            full_words.len() > 0,
            full_words.len() * full_words.len() <= usize::MAX,
            old(self).candidates.len() * old(self).candidates.len() <= usize::MAX,
        ensures
            turn_taken(*old(self), *final(self), full_words@, status@, won, reset),
    {
        let ghost before = self.candidates@;
        self.turns = self.turns + 1;
        filter(Feedback::input(self.guess, status), &mut self.candidates);
        proof {
            before.lemma_filter_len(keeps(self.guess@, status@));
            assert(self.candidates.len() * self.candidates.len() <= before.len() * before.len())
                by (nonlinear_arith)
                requires
                    self.candidates.len() <= before.len(),
            ;
        }
        if is_win(&status) {
            return Some(self.turns);
        }
        let n = self.candidates.len();
        if n == 0 {
            if reset {
                self.candidates = full_words.clone();
            }
        } else if n <= 2 {
            self.guess = self.candidates[0];
        } else {
            self.guess = best_word(full_words, &self.candidates);
        }
        None
    }
}

/// The candidates after a turn that kept `kept`: the guess dictionary when
/// none is kept and the reset applies, else `kept`.
pub open spec fn next_candidates(full: Seq<Word>, kept: Seq<Word>, reset: bool) -> Seq<Word> {
    if kept.len() == 0 && reset {
        full
    } else {
        kept
    }
}

/// The guess after a turn that kept `kept`: unchanged when none is kept; the
/// first of one or two; otherwise the best word of the guess dictionary.
pub open spec fn next_guess(full: Seq<Word>, kept: Seq<Word>, guess: Word) -> Word {
    if kept.len() == 0 {
        guess
    } else if kept.len() <= 2 {
        kept[0]
    } else {
        best_of(full, kept)
    }
}

/// How a game moves from `g0` to `g1` when its guess gets `st`, returning `won`.
pub open spec fn turn_taken(
    g0: Game,
    g1: Game,
    full: Seq<Word>,
    st: Seq<Status>,
    won: Option<usize>,
    reset: bool,
) -> bool {
    let kept = survivors(g0.guess@, st, g0.candidates@);
    &&& g1.turns == g0.turns + 1
    &&& g1.candidates.len() * g1.candidates.len() <= usize::MAX
    &&& all_exact(st) ==> won == Some(g1.turns) && g1.candidates@ == kept && g1.guess == g0.guess
    &&& !all_exact(st) ==> won is None && g1.candidates@ == next_candidates(full, kept, reset)
        && g1.guess == next_guess(full, kept, g0.guess)
}

/// A turn never adds candidates, except by the reset, which comes only when
/// the filter kept none.
pub proof fn lemma_turn_shrinks(
    g0: Game,
    g1: Game,
    full: Seq<Word>,
    st: Seq<Status>,
    won: Option<usize>,
    reset: bool,
)
    requires
        turn_taken(g0, g1, full, st, won, reset),
    ensures
        g1.candidates.len() <= g0.candidates.len() || (reset && !all_exact(st) && survivors(
            g0.guess@,
            st,
            g0.candidates@,
        ).len() == 0 && g1.candidates@ == full),
{
    g0.candidates@.lemma_filter_len(keeps(g0.guess@, st));
}

/// The number of guesses a game takes against `ans`, from candidates `cands`
/// and next guess `guess` after `turns` guesses, stopping after `max`
/// guesses: none when it has not won by then.
pub open spec fn play(
    ans: Word,
    full: Seq<Word>,
    cands: Seq<Word>,
    guess: Word,
    turns: nat,
    max: nat,
) -> Option<nat>
    decreases max - turns,
{
    if turns >= max {
        None
    } else {
        let st = feedback_of(guess@, ans@);
        let kept = survivors(guess@, st, cands);
        if all_exact(st) {
            Some(turns + 1)
        } else {
            play(ans, full, next_candidates(full, kept, true), next_guess(full, kept, guess), turns + 1, max)
        }
    }
}

/// The number of guesses a simulated game against `ans` takes, opening with
/// `opening`, within `max` guesses.
pub open spec fn simulated_turns(
    ans: Word,
    full: Seq<Word>,
    answers: Seq<Word>,
    opening: Word,
    max: nat,
) -> Option<nat> {
    play(ans, full, answers, opening, 0, max)
}

/// Plays a game against the hidden answer `true_ans`, with feedback computed
/// from it, opening with `opening`, for at most `max_turns` guesses. Returns the
/// number of guesses that found the answer, or none when `max_turns` were not
/// enough. When the answer is one of distinct answers that are all legal
/// guesses, the game finds it within one guess more than there are answers.
pub fn simulate(
    true_ans: Word,
    full_words: &Vec<Word>,
    answers: &Vec<Word>,
    opening: Word,
    max_turns: usize,
) -> (r: Option<usize>)
    requires
        full_words.len() > 0,
        full_words.len() * full_words.len() <= usize::MAX,
        answers.len() * answers.len() <= usize::MAX,
    ensures
        r matches Some(n) ==> 1 <= n <= max_turns
            && simulated_turns(true_ans, full_words@, answers@, opening, max_turns as nat) == Some(
            n as nat,
        ),
        r is None ==> simulated_turns(true_ans, full_words@, answers@, opening, max_turns as nat)
            is None,
        answers@.contains(true_ans) && distinct_words(answers@) && within(answers@, full_words@)
            && max_turns > answers.len() ==> (r matches Some(n) && n <= answers.len() + 1),
{
    let mut game = Game::new(answers, opening);
    while game.turns < max_turns
        invariant
            game.candidates.len() * game.candidates.len() <= usize::MAX,
            game.turns <= max_turns,
            full_words.len() > 0,
            full_words.len() * full_words.len() <= usize::MAX,
            play(true_ans, full_words@, game.candidates@, game.guess, game.turns as nat, max_turns as nat)
                == simulated_turns(true_ans, full_words@, answers@, opening, max_turns as nat),
        decreases max_turns - game.turns,
    {
        let fb = Feedback::compute(game.guess, true_ans);
        let won = game.step(full_words, fb.status);
        if let Some(n) = won {
            proof {
                if answers@.contains(true_ans) && distinct_words(answers@) && within(
                    answers@,
                    full_words@,
                ) && max_turns > answers.len() {
                    lemma_simulation_terminates(
                        true_ans,
                        full_words@,
                        answers@,
                        opening,
                        max_turns as nat,
                    );
                }
            }
            return Some(n);
        }
    }
    proof {
        if answers@.contains(true_ans) && distinct_words(answers@) && within(answers@, full_words@)
            && max_turns > answers.len() {
            lemma_simulation_terminates(true_ans, full_words@, answers@, opening, max_turns as nat);
        }
    }
    None
}

/// The answer always survives the filter by its own feedback, so a simulated
/// game never empties its candidates while they hold the answer.
pub proof fn lemma_answer_survives(g: Word, a: Word, cands: Seq<Word>)
    requires
        cands.contains(a),
    ensures
        survivors(g@, feedback_of(g@, a@), cands).contains(a),
{
    lemma_answer_consistent(g, a);
    broadcast use vstd::seq_lib::group_filter_ensures;

}

/// A guess that is not the answer never survives the filter by the answer's
/// feedback, so a wrong guess taken from the candidates leaves them.
pub proof fn lemma_wrong_guess_eliminated(g: Word, a: Word)
    requires
        g@ != a@,
    ensures
        !consistent(g@, feedback_of(g@, a@), g@),
{
    let f = feedback_of(g@, a@);
    assert(!(g@ =~= a@));
    let i = choose|i: int| 0 <= i < 5 && g@[i] != a@[i];
    assert(f[i] != Status::Exact);
    let c = g@[i];
    if f[i] == Status::Absent {
        assert forall|k: int| 0 <= k < 5 implies tag_hit(g@, f, Status::Present, c, k, 5)
            <= free_hit(g@, claimed(f), c, k, 5) by {}
        assert(free_hit(g@, claimed(f), c, i, 5) == 1);
        assert(tag_hit(g@, f, Status::Present, c, i, 5) == 0);
        assert(free_count(g@, claimed(f), c, 5) > tag_count(g@, f, Status::Present, c, 5));
    }
}

/// Endgame: when at most two candidates remain and they hold the answer, a
/// guess of the first that is not the answer leaves the answer alone, which
/// the game guesses next.
pub proof fn lemma_endgame(a: Word, cands: Seq<Word>)
    requires
        cands.contains(a),
        cands.len() <= 2,
        cands[0]@ != a@,
    ensures
        survivors(cands[0]@, feedback_of(cands[0]@, a@), cands) == seq![a],
{
    let g = cands[0];
    let p = keeps(g@, feedback_of(g@, a@));
    lemma_answer_consistent(g, a);
    lemma_wrong_guess_eliminated(g, a);
    reveal(Seq::filter);
    assert(cands.len() == 2 && cands[1] == a);
    assert(cands.drop_last() =~= seq![g]);
    assert(seq![g].drop_last() =~= Seq::<Word>::empty());
    assert(Seq::<Word>::empty().filter(p) =~= Seq::<Word>::empty());
    assert(seq![g].last() == g);
    assert(!p(g));
    assert(p(a));
    assert(seq![g].filter(p) =~= Seq::<Word>::empty());
    assert(cands.filter(p) =~= seq![a]);
}

/// Every status is exact exactly when the guess is the answer.
pub proof fn lemma_all_exact_iff_equal(g: Word, a: Word)
    ensures
        all_exact(feedback_of(g@, a@)) <==> g@ == a@,
{
    if all_exact(feedback_of(g@, a@)) {
        assert forall|i: int| 0 <= i < 5 implies g@[i] == a@[i] by {
            assert(feedback_of(g@, a@)[i] == Status::Exact);
        }
        assert(g@ =~= a@);
    }
}

/// A game that finishes does so after the guesses already played and within
/// its limit.
pub proof fn lemma_play_bounds(
    ans: Word,
    full: Seq<Word>,
    cands: Seq<Word>,
    guess: Word,
    turns: nat,
    max: nat,
)
    ensures
        play(ans, full, cands, guess, turns, max) matches Some(n) ==> turns < n <= max,
    decreases max - turns,
{
    if turns < max {
        let st = feedback_of(guess@, ans@);
        let kept = survivors(guess@, st, cands);
        if !all_exact(st) {
            lemma_play_bounds(
                ans,
                full,
                next_candidates(full, kept, true),
                next_guess(full, kept, guess),
                turns + 1,
                max,
            );
        }
    }
}

/// A simulated game takes one guess exactly when the answer is the opening.
pub proof fn lemma_first_turn(ans: Word, full: Seq<Word>, answers: Seq<Word>, opening: Word, max: nat)
    requires
        max >= 1,
    ensures
        simulated_turns(ans, full, answers, opening, max) == Some(1nat) <==> opening@ == ans@,
{
    lemma_all_exact_iff_equal(opening, ans);
    let kept = survivors(opening@, feedback_of(opening@, ans@), answers);
    lemma_play_bounds(
        ans,
        full,
        next_candidates(full, kept, true),
        next_guess(full, kept, opening),
        1,
        max,
    );
}

/// Endgame: from at most two candidates that hold the answer, guessing the
/// first, a game wins within two more guesses when its limit allows them.
pub proof fn lemma_endgame_play(
    ans: Word,
    full: Seq<Word>,
    cands: Seq<Word>,
    turns: nat,
    max: nat,
)
    requires
        cands.contains(ans),
        cands.len() <= 2,
        turns + 2 <= max,
    ensures
        play(ans, full, cands, cands[0], turns, max) matches Some(n) && n <= turns + 2,
{
    let g = cands[0];
    lemma_all_exact_iff_equal(g, ans);
    if g@ != ans@ {
        lemma_endgame(ans, cands);
        let kept = survivors(g@, feedback_of(g@, ans@), cands);
        assert(kept == seq![ans]);
        assert(next_candidates(full, kept, true) == kept);
        assert(next_guess(full, kept, g) == ans);
        lemma_all_exact_iff_equal(ans, ans);
        assert(play(ans, full, kept, ans, turns + 1, max) == Some((turns + 2) as nat));
        assert(play(ans, full, cands, g, turns, max) == play(ans, full, kept, ans, turns + 1, max));
    }
}

} // verus!
