//! Why a simulated game ends: every turn that does not win removes at least
//! one candidate while keeping the answer.
use vstd::prelude::*;
use crate::word::Word;
use crate::feedback::{consistent, feedback_of, lemma_consistent_iff_same_feedback};
use crate::search::{best_of, is_best, keeps, score_of, score_over, survivors};
use crate::game::{
    lemma_all_exact_iff_equal, lemma_answer_survives, lemma_wrong_guess_eliminated, next_candidates,
    next_guess, play, simulated_turns,
};

verus! {

/// No two words of `s` have the same letters.
pub open spec fn distinct_words(s: Seq<Word>) -> bool {
    forall|i: int, j: int| 0 <= i < s.len() && 0 <= j < s.len() && i != j ==> s[i]@ != s[j]@
}

/// Every word of `s` is a word of `t`.
pub open spec fn within(s: Seq<Word>, t: Seq<Word>) -> bool {
    forall|i: int| 0 <= i < s.len() ==> t.contains(#[trigger] s[i])
}

/// A filter keeps words of the sequence, keeps them distinct, keeps every
/// word when all pass, and drops at least one when one fails.
proof fn lemma_filter_facts(s: Seq<Word>, p: spec_fn(Word) -> bool)
    ensures
        within(s.filter(p), s),
        s.filter(p).len() <= s.len(),
        distinct_words(s) ==> distinct_words(s.filter(p)),
        (forall|i: int| 0 <= i < s.len() ==> p(#[trigger] s[i])) ==> s.filter(p).len() == s.len(),
        (exists|i: int| 0 <= i < s.len() && !p(#[trigger] s[i])) ==> s.filter(p).len() < s.len(),
    decreases s.len(),
{
    reveal(Seq::filter);
    if s.len() > 0 {
        let d = s.drop_last();
        lemma_filter_facts(d, p);
        let sub = d.filter(p);
        assert forall|i: int| 0 <= i < d.len() implies s.contains(#[trigger] d[i]) by {
            assert(s[i] == d[i]);
        }
        assert forall|i: int| 0 <= i < s.filter(p).len() implies s.contains(
            #[trigger] s.filter(p)[i],
        ) by {
            if i < sub.len() {
                assert(s.filter(p)[i] == sub[i]);
                assert(d.contains(sub[i]));
            } else {
                assert(s.filter(p)[i] == s.last());
                assert(s[s.len() - 1] == s.last());
            }
        }
        if distinct_words(s) {
            assert(distinct_words(d));
            if p(s.last()) {
                assert forall|i: int| 0 <= i < sub.len() implies sub[i]@ != s.last()@ by {
                    assert(d.contains(sub[i]));
                    let k = choose|k: int| 0 <= k < d.len() && d[k] == sub[i];
                    assert(s[k] == d[k]);
                }
                assert(distinct_words(s.filter(p)));
            }
        }
        if forall|i: int| 0 <= i < s.len() ==> p(#[trigger] s[i]) {
            assert forall|i: int| 0 <= i < d.len() implies p(#[trigger] d[i]) by {
                assert(s[i] == d[i]);
            }
            assert(p(s[s.len() - 1]));
        }
        if exists|i: int| 0 <= i < s.len() && !p(#[trigger] s[i]) {
            let i = choose|i: int| 0 <= i < s.len() && !p(#[trigger] s[i]);
            if i < s.len() - 1 {
                assert(d[i] == s[i]);
            } else {
                assert(s.last() == s[i]);
            }
        }
    }
}

/// A guess that gives every candidate the same feedback scores the square of
/// their number.
proof fn lemma_uniform_score(w: Word, hyps: Seq<Word>, cands: Seq<Word>)
    requires
        forall|h: int, x: int|
            0 <= h < hyps.len() && 0 <= x < cands.len() ==> consistent(
                w@,
                feedback_of(w@, hyps[h]@),
                cands[x]@,
            ),
    ensures
        score_over(w, hyps, cands) == hyps.len() * cands.len(),
    decreases hyps.len(),
{
    if hyps.len() > 0 {
        let d = hyps.drop_last();
        assert forall|h: int, x: int| 0 <= h < d.len() && 0 <= x < cands.len() implies consistent(
            w@,
            feedback_of(w@, d[h]@),
            cands[x]@,
        ) by {
            assert(d[h] == hyps[h]);
        }
        lemma_uniform_score(w, d, cands);
        let p = keeps(w@, feedback_of(w@, hyps.last()@));
        assert forall|i: int| 0 <= i < cands.len() implies p(#[trigger] cands[i]) by {
            assert(hyps.last() == hyps[hyps.len() - 1]);
        }
        lemma_filter_facts(cands, p);
        assert(hyps.len() * cands.len() == d.len() * cands.len() + cands.len())
            by (nonlinear_arith)
            requires
                d.len() + 1 == hyps.len(),
        ;
    }
}

/// A guess taken from the candidates, when some other candidate differs from
/// it, scores less than the square of their number whenever it is itself one
/// of the hypotheses.
proof fn lemma_candidate_score(c: Word, hyps: Seq<Word>, cands: Seq<Word>, x: int)
    requires
        0 <= x < cands.len(),
        cands[x]@ != c@,
    ensures
        score_over(c, hyps, cands) <= hyps.len() * cands.len(),
        hyps.contains(c) ==> score_over(c, hyps, cands) < hyps.len() * cands.len(),
    decreases hyps.len(),
{
    if hyps.len() > 0 {
        let d = hyps.drop_last();
        lemma_candidate_score(c, d, cands, x);
        let p = keeps(c@, feedback_of(c@, hyps.last()@));
        lemma_filter_facts(cands, p);
        assert(hyps.len() * cands.len() == d.len() * cands.len() + cands.len())
            by (nonlinear_arith)
            requires
                d.len() + 1 == hyps.len(),
        ;
        if hyps.contains(c) {
            if hyps.last() == c {
                lemma_all_exact_iff_equal(c, c);
                if p(cands[x]) {
                    assert forall|i: int| 0 <= i < 5 implies cands[x]@[i] == c@[i] by {}
                    assert(cands[x]@ =~= c@);
                }
            } else {
                let k = choose|k: int| 0 <= k < hyps.len() && hyps[k] == c;
                assert(k < d.len() && d[k] == c);
            }
        }
    }
}

/// The index of the first least-scoring word among the first `n` of `dict`.
pub open spec fn first_min(dict: Seq<Word>, cands: Seq<Word>, n: int) -> int
    decreases n,
{
    if n <= 1 {
        0
    } else {
        let k = first_min(dict, cands, n - 1);
        if score_of(dict[n - 1], cands) < score_of(dict[k], cands) {
            n - 1
        } else {
            k
        }
    }
}

proof fn lemma_first_min(dict: Seq<Word>, cands: Seq<Word>, n: int)
    requires
        1 <= n <= dict.len(),
    ensures
        0 <= first_min(dict, cands, n) < n,
        forall|j: int|
            0 <= j < n ==> score_of(#[trigger] dict[j], cands) >= score_of(
                dict[first_min(dict, cands, n)],
                cands,
            ),
        forall|j: int|
            0 <= j < first_min(dict, cands, n) ==> score_of(#[trigger] dict[j], cands) > score_of(
                dict[first_min(dict, cands, n)],
                cands,
            ),
    decreases n,
{
    if n > 1 {
        lemma_first_min(dict, cands, n - 1);
    }
}

/// A non-empty dictionary has a best word.
proof fn lemma_best_exists(dict: Seq<Word>, cands: Seq<Word>)
    requires
        dict.len() > 0,
    ensures
        is_best(best_of(dict, cands), dict, cands),
{
    lemma_first_min(dict, cands, dict.len() as int);
    let k = first_min(dict, cands, dict.len() as int);
    assert(is_best(dict[k], dict, cands));
}

/// The best guess over three or more distinct candidates, all of them legal
/// guesses, removes at least one candidate whatever the answer among them.
proof fn lemma_best_shrinks(ans: Word, full: Seq<Word>, cands: Seq<Word>)
    requires
        cands.contains(ans),
        distinct_words(cands),
        within(cands, full),
        cands.len() >= 3,
    ensures
        survivors(best_of(full, cands)@, feedback_of(best_of(full, cands)@, ans@), cands).len()
            < cands.len(),
{
    let w = best_of(full, cands);
    let f = feedback_of(w@, ans@);
    let p = keeps(w@, f);
    assert(full.contains(cands[0]));
    lemma_best_exists(full, cands);
    lemma_filter_facts(cands, p);
    if forall|i: int| 0 <= i < cands.len() ==> p(#[trigger] cands[i]) {
        assert forall|h: int, x: int|
            0 <= h < cands.len() && 0 <= x < cands.len() implies consistent(
            w@,
            feedback_of(w@, cands[h]@),
            cands[x]@,
        ) by {
            assert(p(cands[h]) && p(cands[x]));
            lemma_consistent_iff_same_feedback(w, ans, cands[h]);
            lemma_consistent_iff_same_feedback(w, ans, cands[x]);
            lemma_consistent_iff_same_feedback(w, cands[h], cands[x]);
        }
        lemma_uniform_score(w, cands, cands);
        let c = cands[0];
        assert(cands.contains(c));
        lemma_candidate_score(c, cands, cands, 1);
        let j = choose|j: int| 0 <= j < full.len() && full[j] == c;
        assert(score_of(full[j], cands) >= score_of(w, cands));
    } else {
        let i = choose|i: int| 0 <= i < cands.len() && !p(#[trigger] cands[i]);
        assert(exists|i: int| 0 <= i < cands.len() && !p(#[trigger] cands[i]));
    }
}

/// From distinct candidates that hold the answer and are all legal guesses,
/// with a next guess that is one of them or the best guess over three or
/// more, a game wins within as many more guesses as there are candidates.
pub proof fn lemma_play_terminates(
    ans: Word,
    full: Seq<Word>,
    cands: Seq<Word>,
    guess: Word,
    turns: nat,
    max: nat,
)
    requires
        cands.contains(ans),
        distinct_words(cands),
        within(cands, full),
        cands.contains(guess) || (cands.len() >= 3 && guess == best_of(full, cands)),
        turns + cands.len() <= max,
    ensures
        play(ans, full, cands, guess, turns, max) matches Some(n) && n <= turns + cands.len(),
    decreases cands.len(),
{
    let f = feedback_of(guess@, ans@);
    let p = keeps(guess@, f);
    let kept = survivors(guess@, f, cands);
    lemma_all_exact_iff_equal(guess, ans);
    lemma_filter_facts(cands, p);
    lemma_answer_survives(guess, ans, cands);
    if guess@ != ans@ {
        if cands.contains(guess) {
            lemma_wrong_guess_eliminated(guess, ans);
            let i = choose|i: int| 0 <= i < cands.len() && cands[i] == guess;
            assert(!p(cands[i]));
        } else {
            lemma_best_shrinks(ans, full, cands);
        }
        assert(kept.len() < cands.len());
        assert(kept.len() > 0);
        assert forall|i: int| 0 <= i < kept.len() implies full.contains(#[trigger] kept[i]) by {
            assert(cands.contains(kept[i]));
            let k = choose|k: int| 0 <= k < cands.len() && cands[k] == kept[i];
            assert(full.contains(cands[k]));
        }
        let next = next_guess(full, kept, guess);
        if kept.len() <= 2 {
            assert(kept.contains(kept[0]));
        }
        lemma_play_terminates(ans, full, kept, next, turns + 1, max);
    }
}

/// A simulated game against an answer from a list of distinct answers, all of
/// them legal guesses, finds it within one guess more than the list holds.
pub proof fn lemma_simulation_terminates(
    ans: Word,
    full: Seq<Word>,
    answers: Seq<Word>,
    opening: Word,
    max: nat,
)
    requires
        answers.contains(ans),
        distinct_words(answers),
        within(answers, full),
        max > answers.len(),
    ensures
        simulated_turns(ans, full, answers, opening, max) matches Some(n) && n <= answers.len()
            + 1,
{
    let f = feedback_of(opening@, ans@);
    let p = keeps(opening@, f);
    let kept = survivors(opening@, f, answers);
    lemma_all_exact_iff_equal(opening, ans);
    lemma_filter_facts(answers, p);
    lemma_answer_survives(opening, ans, answers);
    if opening@ != ans@ {
        assert(kept.len() > 0);
        assert forall|i: int| 0 <= i < kept.len() implies full.contains(#[trigger] kept[i]) by {
            assert(answers.contains(kept[i]));
            let k = choose|k: int| 0 <= k < answers.len() && answers[k] == kept[i];
            assert(full.contains(answers[k]));
        }
        if kept.len() <= 2 {
            assert(kept.contains(kept[0]));
        }
        lemma_play_terminates(ans, full, kept, next_guess(full, kept, opening), 1, max);
    }
}

} // verus!
