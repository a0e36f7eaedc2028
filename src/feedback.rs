//! Feedback: the per-letter outcome of a guess, how it is computed against an
//! answer, written in notation, and checked against a candidate answer.
use vstd::prelude::*;
use vstd::string::StrSliceExecFns;
use crate::word::{Word, WordleError, WORD_LEN};

verus! {

/// The outcome for one letter of a guess.
#[derive(Clone, Copy, Debug, PartialEq, Eq, Structural)]
pub enum Status {
    /// The answer has this letter at this position.
    Exact,
    /// The answer has this letter, but elsewhere.
    Present,
    /// The answer has no unclaimed occurrence of this letter.
    Absent,
}

/// A guess together with the status of each of its letters.
#[derive(Clone, Copy, Debug)]
pub struct Feedback {
    pub word: Word,
    pub status: [Status; 5],
}

/// 1 when position `k` lies below `n`, is not claimed in `used`, and holds `c`.
pub open spec fn free_hit(w: Seq<char>, used: Seq<bool>, c: char, k: int, n: int) -> int {
    if k < n && !used[k] && w[k] == c {
        1
    } else {
        0
    }
}

/// The number of positions below `n` of `w` that hold `c` and are not claimed
/// in `used`.
pub open spec fn free_count(w: Seq<char>, used: Seq<bool>, c: char, n: int) -> int {
    free_hit(w, used, c, 0, n) + free_hit(w, used, c, 1, n) + free_hit(w, used, c, 2, n)
        + free_hit(w, used, c, 3, n) + free_hit(w, used, c, 4, n)
}

/// The positions at which guess and answer agree.
pub open spec fn exact_mask(g: Seq<char>, a: Seq<char>) -> Seq<bool> {
    Seq::new(5, |k: int| g[k] == a[k])
}

/// The status of position `i` of guess `g` against answer `a`: exact where the
/// letters agree; otherwise present when fewer earlier non-exact positions of
/// the guess carry this letter than the answer has non-exact occurrences of it.
pub open spec fn status_of(g: Seq<char>, a: Seq<char>, i: int) -> Status {
    if g[i] == a[i] {
        Status::Exact
    } else if free_count(g, exact_mask(g, a), g[i], i) < free_count(a, exact_mask(g, a), g[i], 5) {
        Status::Present
    } else {
        Status::Absent
    }
}

/// The statuses that guess `g` receives against answer `a`.
pub open spec fn feedback_of(g: Seq<char>, a: Seq<char>) -> Seq<Status> {
    Seq::new(5, |i: int| status_of(g, a, i))
}

/// 1 when position `k` lies below `n`, has status `t`, and holds `c`.
pub open spec fn tag_hit(g: Seq<char>, st: Seq<Status>, t: Status, c: char, k: int, n: int) -> int {
    if k < n && st[k] == t && g[k] == c {
        1
    } else {
        0
    }
}

/// The number of positions below `n` with status `t` whose guess letter is `c`.
pub open spec fn tag_count(g: Seq<char>, st: Seq<Status>, t: Status, c: char, n: int) -> int {
    tag_hit(g, st, t, c, 0, n) + tag_hit(g, st, t, c, 1, n) + tag_hit(g, st, t, c, 2, n)
        + tag_hit(g, st, t, c, 3, n) + tag_hit(g, st, t, c, 4, n)
}

/// The positions that an exact status claims.
pub open spec fn claimed(st: Seq<Status>) -> Seq<bool> {
    Seq::new(5, |k: int| st[k] == Status::Exact)
}

/// Whether word `w` could be the answer that gave statuses `st` to guess `g`:
/// every exact position matches; every present position differs, and `w` has,
/// outside the exact positions, at least as many occurrences of its letter as
/// there are present positions with that letter; and every absent position
/// differs, with `w` holding no more such occurrences of its letter than
/// present positions take.
pub open spec fn consistent(g: Seq<char>, st: Seq<Status>, w: Seq<char>) -> bool {
    &&& forall|i: int| 0 <= i < 5 && st[i] == Status::Exact ==> w[i] == g[i]
    &&& forall|i: int|
        0 <= i < 5 && st[i] == Status::Present ==> w[i] != g[i] && tag_count(
            g,
            st,
            Status::Present,
            g[i],
            5,
        ) <= free_count(w, claimed(st), g[i], 5)
    &&& forall|i: int|
        0 <= i < 5 && st[i] == Status::Absent ==> w[i] != g[i] && free_count(
            w,
            claimed(st),
            g[i],
            5,
        ) <= tag_count(g, st, Status::Present, g[i], 5)
}

/// Whether every status is exact.
pub open spec fn all_exact(st: Seq<Status>) -> bool {
    forall|i: int| 0 <= i < 5 ==> st[i] == Status::Exact
}

/// The notation symbol of a status.
pub open spec fn symbol_of(s: Status) -> char {
    match s {
        Status::Exact => '=',
        Status::Present => '~',
        Status::Absent => '.',
    }
}

/// Whether `c` is one of the three notation symbols.
pub open spec fn is_symbol(c: char) -> bool {
    c == '=' || c == '~' || c == '.'
}

/// The status that a notation symbol stands for.
pub open spec fn status_of_symbol(c: char) -> Status {
    if c == '=' {
        Status::Exact
    } else if c == '~' {
        Status::Present
    } else {
        Status::Absent
    }
}

/// Text in feedback notation: five symbols.
pub open spec fn is_notation(s: Seq<char>) -> bool {
    s.len() == WORD_LEN && forall|i: int| 0 <= i < s.len() ==> is_symbol(#[trigger] s[i])
}

/// The statuses that notation text stands for.
pub open spec fn decode(s: Seq<char>) -> Seq<Status> {
    Seq::new(5, |i: int| status_of_symbol(s[i]))
}

/// The notation of a status sequence.
pub open spec fn encode(st: Seq<Status>) -> Seq<char> {
    Seq::new(5, |i: int| symbol_of(st[i]))
}

/// Position of the first unclaimed occurrence of `c` in `w`.
pub fn find_in_word(w: &Word, used: &[bool; 5], c: char) -> (r: Option<usize>)
    ensures
        r matches Some(k) ==> k < WORD_LEN && !used@[k as int] && w@[k as int] == c
            && forall|j: int| 0 <= j < k ==> used@[j] || w@[j] != c,
        r is None ==> free_count(w@, used@, c, 5) == 0,
{
    let mut i: usize = 0;
    while i < WORD_LEN
        invariant
            i <= WORD_LEN,
            forall|j: int| 0 <= j < i ==> used@[j] || w@[j] != c,
        decreases WORD_LEN - i,
    {
        if !used[i] && w.letters[i] == c {
            return Some(i);
        }
        i = i + 1;
    }
    None
}

/// Claiming position `k` removes one free occurrence of its letter and no other.
proof fn lemma_claim(w: Seq<char>, used: Seq<bool>, k: int)
    requires
        0 <= k < 5,
        w.len() == 5,
        used.len() == 5,
        !used[k],
    ensures
        forall|c: char|
            #[trigger] free_count(w, used.update(k, true), c, 5) == free_count(w, used, c, 5)
                - (if w[k] == c {
                1int
            } else {
                0int
            }),
{
}


/// Extending a count by one position adds that position's hit.
proof fn lemma_free_step(w: Seq<char>, used: Seq<bool>, n: int)
    requires
        0 <= n < 5,
    ensures
        forall|c: char|
            #[trigger] free_count(w, used, c, n + 1) == free_count(w, used, c, n) + (if !used[n]
                && w[n] == c {
                1int
            } else {
                0int
            }),
        forall|c: char| #[trigger] free_count(w, used, c, n + 1) <= free_count(w, used, c, 5),
{
}

/// Extending a status count by one position adds that position's hit; a
/// count never exceeds the count over the whole word.
proof fn lemma_tag_step(g: Seq<char>, st: Seq<Status>, t: Status, n: int)
    requires
        0 <= n < 5,
    ensures
        forall|c: char|
            #[trigger] tag_count(g, st, t, c, n + 1) == tag_count(g, st, t, c, n) + (if st[n]
                == t && g[n] == c {
                1int
            } else {
                0int
            }),
        forall|c: char| #[trigger] tag_count(g, st, t, c, n + 1) <= tag_count(g, st, t, c, 5),
{
}

/// For answer `a`, the present positions below `n` carrying letter `c` are as
/// many as the non-exact guess positions below `n` carrying it, capped by the
/// answer's non-exact occurrences of `c`.
proof fn lemma_present_count(g: Seq<char>, a: Seq<char>, c: char, n: int)
    requires
        g.len() == 5,
        a.len() == 5,
        0 <= n <= 5,
    ensures
        tag_count(g, feedback_of(g, a), Status::Present, c, n) == (if free_count(
            g,
            exact_mask(g, a),
            c,
            n,
        ) < free_count(a, exact_mask(g, a), c, 5) {
            free_count(g, exact_mask(g, a), c, n)
        } else {
            free_count(a, exact_mask(g, a), c, 5)
        }),
    decreases n,
{
    if n > 0 {
        lemma_present_count(g, a, c, n - 1);
        lemma_free_step(g, exact_mask(g, a), n - 1);
        lemma_tag_step(g, feedback_of(g, a), Status::Present, n - 1);
    }
}

/// The first position of `a` that holds `c` and is not claimed in `used`.
pub open spec fn first_free(a: Seq<char>, used: Seq<bool>, c: char) -> Option<int> {
    if !used[0] && a[0] == c {
        Some(0)
    } else if !used[1] && a[1] == c {
        Some(1)
    } else if !used[2] && a[2] == c {
        Some(2)
    } else if !used[3] && a[3] == c {
        Some(3)
    } else if !used[4] && a[4] == c {
        Some(4)
    } else {
        None
    }
}

/// The second pass from position `i`, with statuses `st` and claimed answer
/// positions `used`: each position not exact becomes present and claims the
/// first unclaimed answer position holding its letter, if there is one.
pub open spec fn second_pass(g: Seq<char>, a: Seq<char>, st: Seq<Status>, used: Seq<bool>, i: int) -> Seq<
    Status,
>
    decreases 5 - i,
{
    if i >= 5 {
        st
    } else if st[i] == Status::Exact {
        second_pass(g, a, st, used, i + 1)
    } else {
        match first_free(a, used, g[i]) {
            Some(k) => second_pass(g, a, st.update(i, Status::Present), used.update(k, true), i + 1),
            None => second_pass(g, a, st, used, i + 1),
        }
    }
}

/// The two-pass scoring: the first pass marks and claims the exact positions,
/// the second runs from the start over what is left.
pub open spec fn two_pass(g: Seq<char>, a: Seq<char>) -> Seq<Status> {
    second_pass(
        g,
        a,
        Seq::new(5, |k: int| if g[k] == a[k] { Status::Exact } else { Status::Absent }),
        exact_mask(g, a),
        0,
    )
}

proof fn lemma_second_pass(g: Seq<char>, a: Seq<char>, st: Seq<Status>, used: Seq<bool>, i: int)
    requires
        g.len() == 5,
        a.len() == 5,
        st.len() == 5,
        used.len() == 5,
        0 <= i <= 5,
        forall|c: char|
            #[trigger] free_count(a, used, c, 5) == (if free_count(a, exact_mask(g, a), c, 5)
                > free_count(g, exact_mask(g, a), c, i) {
                free_count(a, exact_mask(g, a), c, 5) - free_count(g, exact_mask(g, a), c, i)
            } else {
                0
            }),
        forall|k: int| 0 <= k < i ==> st[k] == status_of(g, a, k),
        forall|k: int|
            i <= k < 5 ==> st[k] == (if g[k] == a[k] {
                Status::Exact
            } else {
                Status::Absent
            }),
    ensures
        second_pass(g, a, st, used, i) == feedback_of(g, a),
    decreases 5 - i,
{
    let mask = exact_mask(g, a);
    if i >= 5 {
        assert(st =~= feedback_of(g, a));
    } else {
        lemma_free_step(g, mask, i);
        if st[i] == Status::Exact {
            lemma_second_pass(g, a, st, used, i + 1);
        } else {
            let c = g[i];
            assert(free_count(a, used, c, 5) == 0 <==> free_count(a, mask, c, 5) <= free_count(
                g,
                mask,
                c,
                i,
            ));
            match first_free(a, used, c) {
                Some(k) => {
                    assert(free_hit(a, used, c, k, 5) == 1);
                    assert(status_of(g, a, i) == Status::Present);
                    lemma_claim(a, used, k);
                    lemma_second_pass(g, a, st.update(i, Status::Present), used.update(k, true), i + 1);
                },
                None => {
                    assert(free_count(a, used, c, 5) == 0);
                    lemma_second_pass(g, a, st, used, i + 1);
                },
            }
        }
    }
}

/// The two-pass scoring gives, position by position, the statuses that
/// `feedback_of` states by counting.
pub proof fn lemma_two_pass(g: Seq<char>, a: Seq<char>)
    requires
        g.len() == 5,
        a.len() == 5,
    ensures
        two_pass(g, a) == feedback_of(g, a),
{
    let st = Seq::new(5, |k: int| if g[k] == a[k] { Status::Exact } else { Status::Absent });
    lemma_second_pass(g, a, st, exact_mask(g, a), 0);
}

impl Status {
    /// The notation symbol of this status.
    pub fn symbol(self) -> (c: char)
        ensures
            c == symbol_of(self),
    {
        match self {
            Status::Exact => '=',
            Status::Present => '~',
            Status::Absent => '.',
        }
    }

    /// The status that a notation symbol stands for, if it is one.
    pub fn from_symbol(c: char) -> (r: Option<Status>)
        ensures
            r is Some <==> is_symbol(c),
            r is Some ==> r->Some_0 == status_of_symbol(c),
    {
        if c == '=' {
            Some(Status::Exact)
        } else if c == '~' {
            Some(Status::Present)
        } else if c == '.' {
            Some(Status::Absent)
        } else {
            None
        }
    }
}

/// Whether every status of the array is exact: the game is won.
pub fn is_win(status: &[Status; 5]) -> (r: bool)
    ensures
        r == all_exact(status@),
{
    let mut i: usize = 0;
    while i < WORD_LEN
        invariant
            i <= WORD_LEN,
            forall|k: int| 0 <= k < i ==> status@[k] == Status::Exact,
        decreases WORD_LEN - i,
    {
        if status[i] != Status::Exact {
            return false;
        }
        i = i + 1;
    }
    true
}

impl Feedback {
    /// A feedback for `word` with every letter absent.
    pub fn new(word: Word) -> (r: Feedback)
        ensures
            r.word == word,
            forall|i: int| 0 <= i < 5 ==> r.status@[i] == Status::Absent,
    {
        Feedback { word, status: [Status::Absent; 5] }
    }

    /// A feedback from a guess and statuses obtained elsewhere.
    pub fn input(word: Word, status: [Status; 5]) -> (r: Feedback)
        ensures
            r.word == word,
            r.status == status,
    {
        Feedback { word, status }
    }

    /// Reads statuses from notation text: five symbols, `=` exact, `~` present,
    /// `.` absent. Fails with `MalformedFeedback` on any other text.
    pub fn mask(text: &str) -> (r: Result<[Status; 5], WordleError>)
        ensures
            r is Ok <==> is_notation(text@),
            r is Ok ==> r->Ok_0@ == decode(text@),
            r is Err ==> r->Err_0 == WordleError::MalformedFeedback,
    {
        if text.unicode_len() != WORD_LEN {
            return Err(WordleError::MalformedFeedback);
        }
        let mut status: [Status; 5] = [Status::Absent; 5];
        let mut i: usize = 0;
        while i < WORD_LEN
            invariant
                i <= WORD_LEN,
                text@.len() == WORD_LEN,
                forall|k: int|
                    0 <= k < i ==> is_symbol(#[trigger] text@[k]) && status@[k] == status_of_symbol(
                        text@[k],
                    ),
            decreases WORD_LEN - i,
        {
            match Status::from_symbol(text.get_char(i)) {
                Some(st) => {
                    status[i] = st;
                },
                None => {
                    return Err(WordleError::MalformedFeedback);
                },
            }
            i = i + 1;
        }
        assert(status@ =~= decode(text@));
        Ok(status)
    }

    /// Writes statuses in notation, one symbol each.
    pub fn notation(status: [Status; 5]) -> (r: [char; 5])
        ensures
            r@ == encode(status@),
    {
        let mut r: [char; 5] = ['.'; 5];
        let mut i: usize = 0;
        while i < WORD_LEN
            invariant
                i <= WORD_LEN,
                forall|k: int| 0 <= k < i ==> r@[k] == symbol_of(status@[k]),
            decreases WORD_LEN - i,
        {
            r[i] = status[i].symbol();
            i = i + 1;
        }
        assert(r@ =~= encode(status@));
        r
    }

    /// Scores `guess` against answer `ans` in two passes: first every exact
    /// position claims its answer letter; then each other position, in order,
    /// is present if an unclaimed occurrence of its letter remains in the
    /// answer, and claims it.
    pub fn compute(guess: Word, ans: Word) -> (r: Feedback)
        ensures
            r.word == guess,
            r.status@ == feedback_of(guess@, ans@),
            r.status@ == two_pass(guess@, ans@),
    {
        let ghost g = guess@;
        let ghost a = ans@;
        let ghost mask = exact_mask(g, a);
        let mut status: [Status; 5] = [Status::Absent; 5];
        let mut used: [bool; 5] = [false; 5];
        let mut i: usize = 0;
        while i < WORD_LEN
            invariant
                i <= WORD_LEN,
                g == guess@,
                a == ans@,
                forall|k: int| 0 <= k < i ==> used@[k] == (g[k] == a[k]),
                forall|k: int| i <= k < 5 ==> !used@[k],
                forall|k: int|
                    0 <= k < i ==> status@[k] == (if g[k] == a[k] {
                        Status::Exact
                    } else {
                        Status::Absent
                    }),
                forall|k: int| i <= k < 5 ==> status@[k] == Status::Absent,
            decreases WORD_LEN - i,
        {
            if guess.letters[i] == ans.letters[i] {
                status[i] = Status::Exact;
                used[i] = true;
            }
            i = i + 1;
        }
        assert(used@ =~= mask);
        i = 0;
        while i < WORD_LEN
            invariant
                i <= WORD_LEN,
                g == guess@,
                a == ans@,
                mask == exact_mask(g, a),
                forall|c: char|
                    #[trigger] free_count(a, used@, c, 5) == (if free_count(a, mask, c, 5)
                        > free_count(g, mask, c, i as int) {
                        free_count(a, mask, c, 5) - free_count(g, mask, c, i as int)
                    } else {
                        0
                    }),
                forall|k: int| 0 <= k < i ==> status@[k] == status_of(g, a, k),
                forall|k: int|
                    i <= k < 5 ==> status@[k] == (if g[k] == a[k] {
                        Status::Exact
                    } else {
                        Status::Absent
                    }),
            decreases WORD_LEN - i,
        {
            proof {
                lemma_free_step(g, mask, i as int);
            }
            if guess.letters[i] != ans.letters[i] {
                let c = guess.letters[i];
                assert(free_count(a, used@, c, 5) == 0 <==> free_count(a, mask, c, 5)
                    <= free_count(g, mask, c, i as int));
                match find_in_word(&ans, &used, c) {
                    Some(k) => {
                        proof {
                            lemma_claim(a, used@, k as int);
                        }
                        used[k] = true;
                        status[i] = Status::Present;
                    },
                    None => {},
                }
            }
            i = i + 1;
        }
        assert(status@ =~= feedback_of(g, a));
        proof {
            lemma_two_pass(g, a);
        }
        Feedback { word: guess, status }
    }

    /// Whether `w` could be the answer that produced this feedback, checked in
    /// three stages: exact positions must match and claim their letter, and
    /// present and absent positions must not match; each present position claims an
    /// unclaimed occurrence of its letter, which must exist; no absent
    /// position's letter may remain unclaimed.
    pub fn valid(&self, w: Word) -> (r: bool)
        ensures
            r == consistent(self.word@, self.status@, w@),
    {
        let ghost g = self.word@;
        let ghost st = self.status@;
        let ghost cl = claimed(st);
        let mut used: [bool; 5] = [false; 5];
        let mut i: usize = 0;
        while i < WORD_LEN
            invariant
                i <= WORD_LEN,
                g == self.word@,
                st == self.status@,
                forall|k: int|
                    0 <= k < i ==> (st[k] == Status::Exact ==> w@[k] == g[k]) && (st[k]
                        != Status::Exact ==> w@[k] != g[k]),
                forall|k: int| 0 <= k < i ==> used@[k] == (st[k] == Status::Exact),
                forall|k: int| i <= k < 5 ==> !used@[k],
            decreases WORD_LEN - i,
        {
            match self.status[i] {
                Status::Exact => {
                    if w.letters[i] != self.word.letters[i] {
                        return false;
                    }
                    used[i] = true;
                },
                Status::Present => {
                    if w.letters[i] == self.word.letters[i] {
                        return false;
                    }
                },
                Status::Absent => {
                    if w.letters[i] == self.word.letters[i] {
                        return false;
                    }
                },
            }
            i = i + 1;
        }
        assert(used@ =~= cl);
        i = 0;
        while i < WORD_LEN
            invariant
                i <= WORD_LEN,
                g == self.word@,
                st == self.status@,
                cl == claimed(st),
                forall|k: int|
                    0 <= k < 5 ==> (st[k] == Status::Exact ==> w@[k] == g[k]) && (st[k]
                        != Status::Exact ==> w@[k] != g[k]),
                forall|c: char|
                    #[trigger] free_count(w@, used@, c, 5) == free_count(w@, cl, c, 5)
                        - tag_count(g, st, Status::Present, c, i as int),
            decreases WORD_LEN - i,
        {
            proof {
                lemma_tag_step(g, st, Status::Present, i as int);
            }
            if self.status[i] == Status::Present {
                let c = self.word.letters[i];
                match find_in_word(&w, &used, c) {
                    Some(k) => {
                        proof {
                            lemma_claim(w@, used@, k as int);
                        }
                        used[k] = true;
                    },
                    None => {
                        assert(free_count(w@, cl, c, 5) < tag_count(g, st, Status::Present, c, 5));
                        return false;
                    },
                }
            }
            i = i + 1;
        }
        assert forall|k: int| 0 <= k < 5 && st[k] == Status::Present implies tag_count(
            g,
            st,
            Status::Present,
            g[k],
            5,
        ) <= free_count(w@, cl, g[k], 5) by {
            assert(free_count(w@, used@, g[k], 5) >= 0);
        }
        i = 0;
        while i < WORD_LEN
            invariant
                i <= WORD_LEN,
                g == self.word@,
                st == self.status@,
                cl == claimed(st),
                forall|k: int|
                    0 <= k < 5 ==> (st[k] == Status::Exact ==> w@[k] == g[k]) && (st[k]
                        != Status::Exact ==> w@[k] != g[k]),
                forall|k: int|
                    0 <= k < 5 && st[k] == Status::Present ==> tag_count(
                        g,
                        st,
                        Status::Present,
                        g[k],
                        5,
                    ) <= free_count(w@, cl, g[k], 5),
                forall|c: char|
                    #[trigger] free_count(w@, used@, c, 5) == free_count(w@, cl, c, 5)
                        - tag_count(g, st, Status::Present, c, 5),
                forall|k: int|
                    0 <= k < i && st[k] == Status::Absent ==> free_count(w@, cl, g[k], 5)
                        <= tag_count(g, st, Status::Present, g[k], 5),
            decreases WORD_LEN - i,
        {
            if self.status[i] == Status::Absent {
                let c = self.word.letters[i];
                if let Some(k) = find_in_word(&w, &used, c) {
                    assert(free_hit(w@, used@, c, k as int, 5) == 1);
                    assert(free_count(w@, used@, c, 5) > 0);
                    return false;
                }
            }
            i = i + 1;
        }
        true
    }
}

/// Writing statuses in notation and reading the notation back gives the same
/// statuses.
pub proof fn lemma_notation_round_trip(st: Seq<Status>)
    requires
        st.len() == 5,
    ensures
        is_notation(encode(st)),
        decode(encode(st)) == st,
{
    assert(decode(encode(st)) =~= st);
}

/// An answer is always consistent with the feedback it gives a guess.
pub proof fn lemma_answer_consistent(g: Word, a: Word)
    ensures
        consistent(g@, feedback_of(g@, a@), a@),
{
    let f = feedback_of(g@, a@);
    let mask = exact_mask(g@, a@);
    assert(claimed(f) =~= mask);
    assert forall|i: int| 0 <= i < 5 && f[i] != Status::Exact implies {
        let c = g@[i];
        let p = tag_count(g@, f, Status::Present, c, 5);
        let r = free_count(a@, claimed(f), c, 5);
        &&& f[i] == Status::Present ==> a@[i] != c && p <= r
        &&& f[i] == Status::Absent ==> r <= p
    } by {
        let c = g@[i];
        lemma_present_count(g@, a@, c, 5);
        lemma_free_step(g@, mask, i);
    }
}

/// Whenever `a2` passes the check against the feedback that `a1` gives guess
/// `g`, `a2` gives `g` the same feedback.
pub proof fn lemma_consistent_same_feedback(g: Word, a1: Word, a2: Word)
    requires
        consistent(g@, feedback_of(g@, a1@), a2@),
    ensures
        feedback_of(g@, a2@) == feedback_of(g@, a1@),
{
    let f = feedback_of(g@, a1@);
    let mask = exact_mask(g@, a1@);
    assert(exact_mask(g@, a2@) =~= mask);
    assert(claimed(f) =~= mask);
    assert forall|i: int| 0 <= i < 5 implies status_of(g@, a2@, i) == f[i] by {
        let c = g@[i];
        lemma_present_count(g@, a1@, c, 5);
        lemma_free_step(g@, mask, i);
    }
    assert(feedback_of(g@, a2@) =~= f);
}

/// Filter soundness: when two answers give a guess different feedback, the
/// second fails the check against the first's feedback.
pub proof fn lemma_filter_soundness(g: Word, a1: Word, a2: Word)
    requires
        a1@ != a2@,
        feedback_of(g@, a1@) != feedback_of(g@, a2@),
    ensures
        !consistent(g@, feedback_of(g@, a1@), a2@),
{
    if consistent(g@, feedback_of(g@, a1@), a2@) {
        lemma_consistent_same_feedback(g, a1, a2);
    }
}

/// A word passes the check against the feedback an answer gives exactly when
/// it gives the guess that same feedback.
pub proof fn lemma_consistent_iff_same_feedback(g: Word, a: Word, w: Word)
    ensures
        consistent(g@, feedback_of(g@, a@), w@) <==> feedback_of(g@, w@) == feedback_of(g@, a@),
{
    if consistent(g@, feedback_of(g@, a@), w@) {
        lemma_consistent_same_feedback(g, a, w);
    }
    if feedback_of(g@, w@) == feedback_of(g@, a@) {
        lemma_answer_consistent(g, w);
    }
}

} // verus!
