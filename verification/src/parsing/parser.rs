//! A cursor over the characters of an input, with the small steps that
//! the readers are made of.

use vstd::prelude::*;
use crate::text::{chars_of, unicode_white_space};

verus! {

/// An input and a position in it, counted in characters.
#[derive(Debug)]
pub struct Parser {
    pub pos: usize,
    pub input: Vec<char>,
}

/// Why an input could not be read.
#[derive(Debug, Clone, Copy, PartialEq, Eq, Structural)]
pub enum ParseError {
    /// The input ends where the grammar asks for more.
    UnexpectedEof,
    /// The input holds another character than the grammar asks for.
    UnexpectedChar,
    /// A closing tag names another element than the one it closes.
    MismatchedTag,
    /// A number has more than one dot, or no digit.
    BadNumber,
    /// A number is too large for a length.
    NumberTooLarge,
    /// A length has a unit other than `px`.
    UnknownUnit,
    /// A colour is not made of three pairs of hexadecimal digits.
    BadColour,
}

/// The sets of characters that the readers skip or collect.
pub enum CharClass {
    /// White space.
    Whitespace,
    /// The letters `a` to `z` and `A` to `Z` and the digits.
    Standard,
    /// Every character but the given one.
    Not(char),
    /// The digits and the dot.
    Number,
}

/// Whether `c` is a letter from `a` to `z` or `A` to `Z`, or a digit.
pub open spec fn is_standard_char(c: char) -> bool {
    ('a' <= c && c <= 'z') || ('A' <= c && c <= 'Z') || ('0' <= c && c <= '9')
}

/// Whether `c` is a digit.
pub open spec fn is_digit(c: char) -> bool {
    '0' <= c && c <= '9'
}

impl CharClass {
    /// Whether `c` belongs to the set.
    pub open spec fn holds(self, c: char) -> bool {
        match self {
            CharClass::Whitespace => unicode_white_space(c),
            CharClass::Standard => is_standard_char(c),
            CharClass::Not(q) => c != q,
            CharClass::Number => is_digit(c) || c == '.',
        }
    }
}

/// The first position from `pos` on at which `input` holds no character
/// of `class`; the length of `input` if there is none.
pub open spec fn scan(input: Seq<char>, pos: int, class: CharClass) -> int
    decreases input.len() - pos,
{
    if 0 <= pos < input.len() && class.holds(input[pos]) {
        scan(input, pos + 1, class)
    } else {
        pos
    }
}

/// Whether `input` reads `s` from `pos` on.
pub open spec fn starts_with_at(input: Seq<char>, pos: int, s: Seq<char>) -> bool {
    &&& 0 <= pos
    &&& pos + s.len() <= input.len()
    &&& input.subrange(pos, pos + s.len()) == s
}

/// A position is the end of a scan if every character before it belongs
/// to the class and the one at it does not.
pub proof fn lemma_scan_end(input: Seq<char>, pos: int, end: int, class: CharClass)
    requires
        0 <= pos <= end <= input.len(),
        forall|i: int| pos <= i < end ==> class.holds(#[trigger] input[i]),
        end < input.len() ==> !class.holds(input[end]),
    ensures
        scan(input, pos, class) == end,
    decreases end - pos,
{
    if pos < end {
        lemma_scan_end(input, pos + 1, end, class);
    }
}

/// A scan ends within the input, behind everything of the class.
pub proof fn lemma_scan_bounds(input: Seq<char>, pos: int, class: CharClass)
    requires
        0 <= pos <= input.len(),
    ensures
        pos <= scan(input, pos, class) <= input.len(),
        forall|i: int| pos <= i < scan(input, pos, class) ==> class.holds(#[trigger] input[i]),
        scan(input, pos, class) < input.len() ==> !class.holds(input[scan(input, pos, class)]),
    decreases input.len() - pos,
{
    if pos < input.len() && class.holds(input[pos]) {
        lemma_scan_bounds(input, pos + 1, class);
    }
}

impl Parser {
    /// Whether the position lies within the input or at its end.
    pub open spec fn wf(&self) -> bool {
        self.pos <= self.input.len()
    }

    /// A cursor at the start of `input`.
    pub fn new(input: &str) -> (p: Parser)
        ensures
            p.wf(),
            p.pos == 0,
            p.input@ == input@,
    {
        Parser { pos: 0, input: chars_of(input) }
    }

    /// The character at the position.
    pub fn next_char(&self) -> (c: char)
        requires
            self.pos < self.input.len(),
        ensures
            c == self.input[self.pos as int],
    {
        self.input[self.pos]
    }

    /// Whether the input reads `s` from the position on.
    pub fn starts_with(&self, s: &str) -> (r: bool)
        requires
            self.wf(),
        ensures
            r == starts_with_at(self.input@, self.pos as int, s@),
    {
        let wanted = chars_of(s);
        if wanted.len() > self.input.len() - self.pos {
            return false;
        }
        let mut i: usize = 0;
        while i < wanted.len()
            invariant
                i <= wanted.len(),
                self.pos + wanted.len() <= self.input.len(),
                wanted@ == s@,
                forall|j: int| 0 <= j < i ==> self.input[self.pos + j] == wanted[j],
            decreases wanted.len() - i,
        {
            if self.input[self.pos + i] != wanted[i] {
                assert(self.input@.subrange(self.pos as int, self.pos + s@.len())[i as int]
                    != s@[i as int]);
                return false;
            }
            i += 1;
        }
        assert(self.input@.subrange(self.pos as int, self.pos + s@.len()) =~= s@);
        true
    }

    /// Steps over `s` if the input reads `s` from the position on, and
    /// says whether it did.
    pub fn string(&mut self, s: &str) -> (r: bool)
        requires
            old(self).wf(),
        ensures
            final(self).wf(),
            final(self).input == old(self).input,
            r == starts_with_at(old(self).input@, old(self).pos as int, s@),
            final(self).pos == if r {
                old(self).pos + s@.len()
            } else {
                old(self).pos as int
            },
    {
        if self.starts_with(s) {
            self.pos += s.unicode_len();
            return true;
        }
        false
    }

    /// Whether the input is used up.
    pub fn eof(&self) -> (r: bool)
        ensures
            r == (self.pos >= self.input.len()),
    {
        self.pos >= self.input.len()
    }

    /// Steps over one character and returns it.
    pub fn consume_char(&mut self) -> (c: char)
        requires
            old(self).pos < old(self).input.len(),
        ensures
            c == old(self).input[old(self).pos as int],
            final(self).pos == old(self).pos + 1,
            final(self).input == old(self).input,
    {
        let current = self.input[self.pos];
        self.pos += 1;
        current
    }

    /// Steps over characters as long as `test` accepts them, and returns
    /// them.
    pub fn consume_while<F: Fn(char) -> bool>(&mut self, test: F) -> (res: String)
        requires
            old(self).wf(),
            forall|c: char| #[trigger] test.requires((c,)),
        ensures
            final(self).wf(),
            final(self).input == old(self).input,
            old(self).pos <= final(self).pos,
            res@ == old(self).input@.subrange(old(self).pos as int, final(self).pos as int),
            forall|i: int|
                old(self).pos <= i < final(self).pos ==> test.ensures(
                    (#[trigger] old(self).input[i],),
                    true,
                ),
            final(self).pos < final(self).input.len() ==> test.ensures(
                (old(self).input[final(self).pos as int],),
                false,
            ),
    {
        let mut res = String::new();
        let ghost start = self.pos;
        while self.pos < self.input.len()
            invariant
                self.wf(),
                self.input == old(self).input,
                start == old(self).pos,
                start <= self.pos,
                res@ == self.input@.subrange(start as int, self.pos as int),
                forall|i: int|
                    start <= i < self.pos ==> test.ensures((#[trigger] self.input[i],), true),
                forall|c: char| #[trigger] test.requires((c,)),
            ensures
                self.pos < self.input.len() ==> test.ensures(
                    (self.input[self.pos as int],),
                    false,
                ),
            decreases self.input.len() - self.pos,
        {
            let c = self.input[self.pos];
            if !test(c) {
                break;
            }
            res.push(c);
            self.pos += 1;
            assert(res@ =~= self.input@.subrange(start as int, self.pos as int));
        }
        res
    }

    /// Steps over white space.
    pub fn consume_whitespace(&mut self)
        requires
            old(self).wf(),
        ensures
            final(self).wf(),
            final(self).input == old(self).input,
            final(self).pos == scan(old(self).input@, old(self).pos as int, CharClass::Whitespace),
    {
        self.consume_while(char::is_whitespace);
        proof {
            lemma_scan_end(
                self.input@,
                old(self).pos as int,
                self.pos as int,
                CharClass::Whitespace,
            );
        }
    }

    /// Steps over letters and digits, and returns them.
    pub fn parse_standard_word(&mut self) -> (res: String)
        requires
            old(self).wf(),
        ensures
            final(self).wf(),
            final(self).input == old(self).input,
            final(self).pos == scan(old(self).input@, old(self).pos as int, CharClass::Standard),
            res@ == old(self).input@.subrange(old(self).pos as int, final(self).pos as int),
    {
        let res = self.consume_while(standard_char);
        proof {
            lemma_scan_end(self.input@, old(self).pos as int, self.pos as int, CharClass::Standard);
        }
        res
    }

    /// Steps over characters up to the next `stop`, or to the end, and
    /// returns them.
    pub fn consume_until(&mut self, stop: char) -> (res: String)
        requires
            old(self).wf(),
        ensures
            final(self).wf(),
            final(self).input == old(self).input,
            final(self).pos == scan(old(self).input@, old(self).pos as int, CharClass::Not(stop)),
            res@ == old(self).input@.subrange(old(self).pos as int, final(self).pos as int),
    {
        let res = self.consume_while(|x: char| -> (b: bool) ensures b == (x != stop) { x != stop });
        proof {
            lemma_scan_end(
                self.input@,
                old(self).pos as int,
                self.pos as int,
                CharClass::Not(stop),
            );
        }
        res
    }

    /// Steps over the character `c`. Where the input does not hold `c`
    /// at the position, nothing is read.
    pub fn expect_char(&mut self, c: char) -> (r: Result<(), ParseError>)
        requires
            old(self).wf(),
        ensures
            final(self).wf(),
            final(self).input == old(self).input,
            match expect(old(self).input@, old(self).pos as int, c) {
                Ok(p) => r is Ok && final(self).pos == p,
                Err(e) => r == Err::<(), ParseError>(e) && final(self).pos == old(self).pos,
            },
    {
        if self.eof() {
            Err(ParseError::UnexpectedEof)
        } else if self.next_char() != c {
            Err(ParseError::UnexpectedChar)
        } else {
            self.pos += 1;
            Ok(())
        }
    }

    /// Reads a text between two characters `c`: steps over the first,
    /// the text and the second, and returns the text. Where the input
    /// does not start with `c`, or no second `c` follows, nothing is
    /// read.
    pub fn parse_between(&mut self, c: char) -> (res: Option<String>)
        requires
            old(self).wf(),
        ensures
            final(self).wf(),
            final(self).input == old(self).input,
            match between(old(self).input@, old(self).pos as int, c) {
                Some((text, end)) => res matches Some(s) && s@ == text && final(self).pos == end,
                None => res is None && final(self).pos == old(self).pos,
            },
    {
        if self.eof() || self.next_char() != c {
            return None;
        }
        let start = self.pos;
        self.consume_char();
        let res = self.consume_until(c);
        if self.eof() {
            self.pos = start;
            return None;
        }
        self.consume_char();
        Some(res)
    }
}

/// The position behind the character `c` at `pos`, or why `input` does
/// not hold `c` there.
pub open spec fn expect(input: Seq<char>, pos: int, c: char) -> Result<int, ParseError> {
    if !(0 <= pos < input.len()) {
        Err(ParseError::UnexpectedEof)
    } else if input[pos] != c {
        Err(ParseError::UnexpectedChar)
    } else {
        Ok(pos + 1)
    }
}

/// The text between a character `c` at `pos` and the next `c` behind it,
/// with the position behind that second `c`; none where `input` does not
/// hold the two.
pub open spec fn between(input: Seq<char>, pos: int, c: char) -> Option<(Seq<char>, int)> {
    if 0 <= pos < input.len() && input[pos] == c {
        let end = scan(input, pos + 1, CharClass::Not(c));
        if end < input.len() {
            Some((input.subrange(pos + 1, end), end + 1))
        } else {
            None
        }
    } else {
        None
    }
}

/// Whether `c` is a letter from `a` to `z` or `A` to `Z`, or a digit.
pub fn standard_char(c: char) -> (b: bool)
    ensures
        b == is_standard_char(c),
{
    (c >= 'a' && c <= 'z') || (c >= 'A' && c <= 'Z') || (c >= '0' && c <= '9')
}

} // verus!
