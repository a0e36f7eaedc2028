//! Five-letter words, the atomic value of guesses and answers.
use vstd::prelude::*;
use vstd::string::StrSliceExecFns;

verus! {

/// Number of letters in every word.
pub const WORD_LEN: usize = 5;

/// The ways input from outside can be malformed.
#[derive(Clone, Copy, Debug, PartialEq, Eq, Structural)]
pub enum WordleError {
    /// A word is not exactly five letters.
    MalformedWord,
    /// A feedback notation has the wrong length or an unknown symbol.
    MalformedFeedback,
}

/// An immutable word of five letters; a valid one satisfies `is_word`, as
/// every word built by `new` or `from_text` does.
#[derive(Clone, Copy, Debug)]
pub struct Word {
    pub letters: [char; 5],
}

impl View for Word {
    type V = Seq<char>;

    open spec fn view(&self) -> Seq<char> {
        self.letters@
    }
}

impl PartialEq for Word {
    fn eq(&self, o: &Word) -> (r: bool)
        ensures
            r == (self@ == o@),
    {
        let r = self.letters[0] == o.letters[0] && self.letters[1] == o.letters[1]
            && self.letters[2] == o.letters[2] && self.letters[3] == o.letters[3]
            && self.letters[4] == o.letters[4];
        proof {
            if r {
                assert(self@ =~= o@);
            }
        }
        r
    }
}

impl vstd::std_specs::cmp::PartialEqSpecImpl for Word {
    open spec fn obeys_eq_spec() -> bool {
        true
    }

    open spec fn eq_spec(&self, o: &Word) -> bool {
        self@ == o@
    }
}

impl Eq for Word {}

/// A letter of a word: an ASCII letter.
pub open spec fn is_letter(c: char) -> bool {
    ('a' <= c && c <= 'z') || ('A' <= c && c <= 'Z')
}

/// The lower-case form of a letter; other characters are unchanged.
pub open spec fn lower(c: char) -> char {
    if 'A' <= c && c <= 'Z' {
        ((c as u8) + 32) as char
    } else {
        c
    }
}

/// A lower-case ASCII letter.
pub open spec fn is_lower_letter(c: char) -> bool {
    'a' <= c && c <= 'z'
}

/// The letters of a valid word: five lower-case letters.
pub open spec fn is_word(s: Seq<char>) -> bool {
    &&& s.len() == WORD_LEN
    &&& forall|i: int| 0 <= i < s.len() ==> is_lower_letter(#[trigger] s[i])
}

/// Text that names a word: exactly five letters.
pub open spec fn is_word_text(s: Seq<char>) -> bool {
    &&& s.len() == WORD_LEN
    &&& forall|i: int| 0 <= i < s.len() ==> is_letter(#[trigger] s[i])
}

impl Word {
    /// Builds a word from its five lower-case letters.
    pub fn new(letters: [char; 5]) -> (w: Word)
        requires
            is_word(letters@),
        ensures
            w@ == letters@,
    {
        Word { letters }
    }

    /// Parses a word from text, in lower case; fails with `MalformedWord`
    /// unless the text is exactly five letters.
    pub fn from_text(s: &str) -> (r: Result<Word, WordleError>)
        ensures
            r is Ok <==> is_word_text(s@),
            r is Ok ==> r->Ok_0@ == s@.map_values(|c: char| lower(c)) && is_word(r->Ok_0@),
            r is Err ==> r->Err_0 == WordleError::MalformedWord,
    {
        let n = s.unicode_len();
        if n != WORD_LEN {
            return Err(WordleError::MalformedWord);
        }
        let mut letters: [char; 5] = ['a'; 5];
        let mut i: usize = 0;
        while i < WORD_LEN
            invariant
                s@.len() == WORD_LEN,
                i <= WORD_LEN,
                forall|k: int|
                    0 <= k < i ==> letters@[k] == lower(s@[k]) && is_letter(#[trigger] s@[k])
                        && is_lower_letter(letters@[k]),
            decreases WORD_LEN - i,
        {
            let c = s.get_char(i);
            if !(('a' <= c && c <= 'z') || ('A' <= c && c <= 'Z')) {
                return Err(WordleError::MalformedWord);
            }
            letters[i] = if 'A' <= c && c <= 'Z' {
                ((c as u8) + 32) as char
            } else {
                c
            };
            i = i + 1;
        }
        let w = Word { letters };
        assert(w@ =~= s@.map_values(|c: char| lower(c)));
        Ok(w)
    }

    /// The letter at position `i`.
    pub fn letter(&self, i: usize) -> (c: char)
        requires
            i < WORD_LEN,
        ensures
            c == self@[i as int],
    {
        self.letters[i]
    }
}

} // verus!
