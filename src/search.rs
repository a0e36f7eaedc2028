//! Filtering the candidate answers, scoring a guess by how well it splits
//! them, and searching the guess dictionary for the best guess.
use vstd::prelude::*;
use rayon::prelude::{IntoParallelRefIterator, ParallelIterator};
use crate::word::Word;
use crate::feedback::{Feedback, Status, consistent, feedback_of};

verus! {

/// The predicate of words that could be the answer behind statuses `st` for
/// guess `g`.
pub open spec fn keeps(g: Seq<char>, st: Seq<Status>) -> spec_fn(Word) -> bool {
    |w: Word| consistent(g, st, w@)
}

/// The words of `words` that remain possible after guess `g` got statuses `st`.
pub open spec fn survivors(g: Seq<char>, st: Seq<Status>, words: Seq<Word>) -> Seq<Word> {
    words.filter(keeps(g, st))
}

/// The sum, over each hypothetical answer in `hyps`, of how many words of
/// `words` remain possible after guess `g` gets that answer's feedback.
pub open spec fn score_over(g: Word, hyps: Seq<Word>, words: Seq<Word>) -> int
    decreases hyps.len(),
{
    if hyps.len() == 0 {
        0
    } else {
        score_over(g, hyps.drop_last(), words) + survivors(
            g@,
            feedback_of(g@, hyps.last()@),
            words,
        ).len()
    }
}

/// The score of guess `g` over the candidate answers `words`: lower is better.
pub open spec fn score_of(g: Word, words: Seq<Word>) -> int {
    score_over(g, words, words)
}

/// Whether `w` is the first word of `dict` with the least score over `cands`.
pub open spec fn is_best(w: Word, dict: Seq<Word>, cands: Seq<Word>) -> bool {
    exists|k: int|
        0 <= k < dict.len() && dict[k] == w && (forall|j: int|
            0 <= j < dict.len() ==> score_of(dict[j], cands) >= score_of(dict[k], cands)) && (
        forall|j: int| 0 <= j < k ==> score_of(dict[j], cands) > score_of(dict[k], cands))
}

/// The first word of `dict` with the least score over `cands`.
pub open spec fn best_of(dict: Seq<Word>, cands: Seq<Word>) -> Word {
    choose|w: Word| is_best(w, dict, cands)
}

/// At most one word is the first with the least score.
pub proof fn lemma_best_unique(w1: Word, w2: Word, dict: Seq<Word>, cands: Seq<Word>)
    requires
        is_best(w1, dict, cands),
        is_best(w2, dict, cands),
    ensures
        w1 == w2,
{
    let k1 = choose|k: int|
        0 <= k < dict.len() && dict[k] == w1 && (forall|j: int|
            0 <= j < dict.len() ==> score_of(dict[j], cands) >= score_of(dict[k], cands)) && (
        forall|j: int| 0 <= j < k ==> score_of(dict[j], cands) > score_of(dict[k], cands));
    let k2 = choose|k: int|
        0 <= k < dict.len() && dict[k] == w2 && (forall|j: int|
            0 <= j < dict.len() ==> score_of(dict[j], cands) >= score_of(dict[k], cands)) && (
        forall|j: int| 0 <= j < k ==> score_of(dict[j], cands) > score_of(dict[k], cands));
    if k1 < k2 {
        assert(score_of(dict[k1], cands) > score_of(dict[k2], cands));
    } else if k2 < k1 {
        assert(score_of(dict[k2], cands) > score_of(dict[k1], cands));
    }
}

/// A score never exceeds the number of hypotheses times the number of words.
pub proof fn lemma_score_bound(g: Word, hyps: Seq<Word>, words: Seq<Word>)
    ensures
        0 <= score_over(g, hyps, words) <= hyps.len() * words.len(),
    decreases hyps.len(),
{
    if hyps.len() > 0 {
        lemma_score_bound(g, hyps.drop_last(), words);
        words.lemma_filter_len(keeps(g@, feedback_of(g@, hyps.last()@)));
        assert(hyps.len() * words.len() == (hyps.len() - 1) * words.len() + words.len())
            by (nonlinear_arith);
    }
}

/// Filtering never adds candidates.
pub proof fn lemma_monotone_shrink(g: Seq<char>, st: Seq<Status>, words: Seq<Word>)
    ensures
        survivors(g, st, words).len() <= words.len(),
{
    words.lemma_filter_len(keeps(g, st));
}

/// The number of words in `words` consistent with `res`.
pub fn found(res: Feedback, words: &Vec<Word>) -> (n: usize)
    ensures
        n == survivors(res.word@, res.status@, words@).len(),
{
    let ghost p = keeps(res.word@, res.status@);
    let mut n: usize = 0;
    let mut i: usize = 0;
    while i < words.len()
        invariant
            i <= words.len(),
            p == keeps(res.word@, res.status@),
            n == words@.subrange(0, i as int).filter(p).len(),
            n <= i,
        decreases words.len() - i,
    {
        proof {
            reveal(Seq::filter);
            assert(words@.subrange(0, i + 1).drop_last() =~= words@.subrange(0, i as int));
        }
        if res.valid(words[i]) {
            n = n + 1;
        }
        i = i + 1;
    }
    assert(words@.subrange(0, words.len() as int) =~= words@);
    n
}

/// Keeps, in order, the words of `words` consistent with `res`.
pub fn filter(res: Feedback, words: &mut Vec<Word>)
    ensures
        final(words)@ == survivors(res.word@, res.status@, old(words)@),
{
    let ghost p = keeps(res.word@, res.status@);
    let mut kept: Vec<Word> = Vec::new();
    let mut i: usize = 0;
    while i < words.len()
        invariant
            i <= words.len(),
            p == keeps(res.word@, res.status@),
            kept@ == words@.subrange(0, i as int).filter(p),
        decreases words.len() - i,
    {
        proof {
            reveal(Seq::filter);
            assert(words@.subrange(0, i + 1).drop_last() =~= words@.subrange(0, i as int));
        }
        let w = words[i];
        if res.valid(w) {
            kept.push(w);
        }
        i = i + 1;
    }
    assert(words@.subrange(0, words.len() as int) =~= words@);
    *words = kept;
}

/// How many of `words` remain possible after `guess` is played against `ans`.
pub fn remaining(guess: Word, ans: Word, words: &Vec<Word>) -> (n: usize)
    ensures
        n == survivors(guess@, feedback_of(guess@, ans@), words@).len(),
{
    found(Feedback::compute(guess, ans), words)
}

/// Relies on rayon's `par_iter`, `map` and `sum`: the sum over the words, in
/// parallel, of `remaining` with each word as the answer.
#[verifier::external_body]
fn par_score(guess: Word, words: &Vec<Word>) -> (r: usize)
    requires
        words.len() * words.len() <= usize::MAX,
    ensures
        r == score_of(guess, words@),
{
    words.par_iter().map(|ans| remaining(guess, *ans, words)).sum::<usize>()
}

/// The score of `guess` over the candidate answers `words`: for each word as
/// the hypothetical answer, how many words stay possible, summed.
pub fn score(guess: Word, words: &Vec<Word>) -> (r: usize)
    requires
        words.len() * words.len() <= usize::MAX,
    ensures
        r == score_of(guess, words@),
        r <= words.len() * words.len(),
{
    let r = par_score(guess, words);
    proof {
        lemma_score_bound(guess, words@, words@);
    }
    r
}

/// Relies on rayon's `par_iter` and `min_by_key`: the first word of `dict`
/// whose `score` over `cands` is least, or none when `dict` is empty.
/// `min_by_key` keeps the left item on a tie and reduces in order.
#[verifier::external_body]
fn par_min_score(dict: &Vec<Word>, cands: &Vec<Word>) -> (r: Option<Word>)
    requires
        cands.len() * cands.len() <= usize::MAX,
    ensures
        r is None <==> dict.len() == 0,
        r matches Some(w) ==> is_best(w, dict@, cands@),
{
    dict.par_iter().min_by_key(|w| score(**w, cands)).copied()
}

/// The word of the guess dictionary with the least score over the candidate
/// answers, the first one on a tie.
pub fn best_word(full_words: &Vec<Word>, ans: &Vec<Word>) -> (w: Word)
    requires
        full_words.len() > 0,
        ans.len() * ans.len() <= usize::MAX,
    ensures
        is_best(w, full_words@, ans@),
        w == best_of(full_words@, ans@),
{
    let w = match par_min_score(full_words, ans) {
        Some(w) => w,
        None => full_words[0],
    };
    proof {
        lemma_best_unique(w, best_of(full_words@, ans@), full_words@, ans@);
    }
    w
}

} // verus!
