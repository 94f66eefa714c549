//! Classification of a raw byte stream into a sequence of classified
//! characters: normal characters, escaped characters (a backslash followed by
//! any character, with the backslash discarded), collapsed whitespace runs,
//! and end of input.  A backslash that ends the input has nothing to escape
//! and stands for itself.  Line comments (`//` through the end of the line)
//! are absorbed into whitespace.  Inside a double-quoted region every
//! character, including whitespace, backslashes and `/`, is classified as
//! normal, except the closing quote itself.

use vstd::prelude::*;

verus! {

/// One classified character of the input.
#[derive(Debug, PartialEq, Eq, Structural, Clone, Copy)]
pub enum ReadChar {
    Normal(char),
    Escaped(char),
    Whitespace,
    Eof,
}

impl ReadChar {
    pub fn is_normal(&self) -> (r: bool)
        ensures
            r == (self is Normal),
    {
        matches!(self, ReadChar::Normal(_))
    }

    pub fn unwrap_normal(&self) -> (r: char)
        requires
            self is Normal,
        ensures
            r == self->Normal_0,
    {
        match self {
            ReadChar::Normal(data) => *data,
            _ => {
                assert(false);
                ' '
            },
        }
    }

    pub fn is_escaped(&self) -> (r: bool)
        ensures
            r == (self is Escaped),
    {
        matches!(self, ReadChar::Escaped(_))
    }

    pub fn unwrap_escaped(&self) -> (r: char)
        requires
            self is Escaped,
        ensures
            r == self->Escaped_0,
    {
        match self {
            ReadChar::Escaped(data) => *data,
            _ => {
                assert(false);
                ' '
            },
        }
    }

    pub fn is_whitespace(&self) -> (r: bool)
        ensures
            r == (self is Whitespace),
    {
        matches!(self, ReadChar::Whitespace)
    }

    pub fn unwrap_whitespace(&self)
        requires
            self is Whitespace,
    {
    }

    pub fn is_eof(&self) -> (r: bool)
        ensures
            r == (self is Eof),
    {
        matches!(self, ReadChar::Eof)
    }

    pub fn unwrap_eof(&self)
        requires
            self is Eof,
    {
    }

    /// The character carried by a normal or escaped classification.
    pub open spec fn spec_char(&self) -> char {
        match self {
            ReadChar::Normal(data) => *data,
            ReadChar::Escaped(data) => *data,
            _ => arbitrary(),
        }
    }

    pub fn is_char(&self) -> (r: bool)
        ensures
            r == (self is Normal || self is Escaped),
    {
        self.is_normal() || self.is_escaped()
    }

    pub fn unwrap_char(&self) -> (r: char)
        requires
            self is Normal || self is Escaped,
        ensures
            r == self.spec_char(),
    {
        match self {
            ReadChar::Normal(data) => *data,
            ReadChar::Escaped(data) => *data,
            _ => {
                assert(false);
                ' '
            },
        }
    }
}

/// An error of the underlying byte source, with the byte position it was
/// met at.  The in-memory classifier classifies every input and never
/// produces one; the variant is kept so that callers can match on it.
#[derive(Debug, PartialEq, Eq, Structural, Clone, Copy)]
pub enum CharReaderError {
    InvalidChar(u64),
}

/// The bytes that count as whitespace: exactly the characters of the Latin-1
/// range for which `char::is_whitespace` holds.
pub open spec fn is_ws_byte(b: u8) -> bool {
    b == 32 || (9 <= b && b <= 13) || b == 0x85 || b == 0xa0
}

pub fn ws_byte(b: u8) -> (r: bool)
    ensures
        r == is_ws_byte(b),
{
    b == 32 || (9 <= b && b <= 13) || b == 0x85 || b == 0xa0
}

/// The position just past the end of a line comment that starts at `pos`:
/// everything through the first newline (inclusive) is consumed, or the whole
/// input if no newline follows.
pub open spec fn skip_comment(data: Seq<u8>, pos: int) -> int
    decreases data.len() - pos,
{
    if pos >= data.len() {
        data.len() as int
    } else if data[pos] == 10u8 {
        pos + 1
    } else {
        skip_comment(data, pos + 1)
    }
}

pub proof fn lemma_skip_comment_bounds(data: Seq<u8>, pos: int)
    requires
        pos < data.len(),
    ensures
        pos + 1 <= skip_comment(data, pos) <= data.len(),
    decreases data.len() - pos,
{
    if data[pos] != 10u8 {
        if pos + 1 < data.len() {
            lemma_skip_comment_bounds(data, pos + 1);
        } else {
            assert(skip_comment(data, pos + 1) == data.len());
        }
    }
}

/// One classification step at byte position `pos`: the classified character,
/// the position after it, and the new quote state.  A backslash that is the
/// last byte has nothing to escape and stands for itself.  The result is
/// always `Some`: the option mirrors a byte source that could fail, which
/// the in-memory classifier cannot.
pub open spec fn step(data: Seq<u8>, pos: int, quoted: bool) -> Option<(ReadChar, int, bool)> {
    if pos >= data.len() {
        Some((ReadChar::Eof, pos, quoted))
    } else {
        let b = data[pos];
        if b == 92 && !quoted {
            if pos + 1 >= data.len() {
                Some((ReadChar::Escaped('\\'), pos + 1, quoted))
            } else {
                Some((ReadChar::Escaped(data[pos + 1] as char), pos + 2, quoted))
            }
        } else if b == 47 && !quoted && pos + 1 < data.len() && data[pos + 1] == 47 {
            Some((ReadChar::Whitespace, skip_comment(data, pos + 1), quoted))
        } else if b == 47 && !quoted {
            Some((ReadChar::Normal('/'), pos + 1, quoted))
        } else if b == 34 {
            Some((ReadChar::Normal('"'), pos + 1, !quoted))
        } else if quoted {
            Some((ReadChar::Normal(b as char), pos + 1, quoted))
        } else if is_ws_byte(b) {
            Some((ReadChar::Whitespace, pos + 1, quoted))
        } else {
            Some((ReadChar::Normal(b as char), pos + 1, quoted))
        }
    }
}

/// Classification steps repeated until the classified character is not
/// whitespace: the collapsing of a whitespace run into one classification.
pub open spec fn advance_until(data: Seq<u8>, pos: int, quoted: bool) -> Option<
    (ReadChar, int, bool),
>
    decreases data.len() - pos,
    via advance_until_decreases
{
    match step(data, pos, quoted) {
        None => None,
        Some((tok, p2, q2)) => if tok is Whitespace {
            advance_until(data, p2, q2)
        } else {
            Some((tok, p2, q2))
        },
    }
}

#[via_fn]
proof fn advance_until_decreases(data: Seq<u8>, pos: int, quoted: bool) {
    if pos < data.len() {
        let b = data[pos];
        if b == 47 && !quoted && pos + 1 < data.len() && data[pos + 1] == 47 {
            lemma_skip_comment_bounds(data, pos + 1);
        }
    }
}

/// What one call of `CharReader::advance` computes from the current state:
/// a single step, except that stepping off a whitespace classification skips
/// the whole whitespace run.
pub open spec fn spec_advance(data: Seq<u8>, pos: int, quoted: bool, cur: ReadChar) -> Option<
    (ReadChar, int, bool),
> {
    if cur is Whitespace {
        advance_until(data, pos, quoted)
    } else {
        step(data, pos, quoted)
    }
}

pub proof fn lemma_step_progress(data: Seq<u8>, pos: int, quoted: bool)
    requires
        pos <= data.len(),
    ensures
        step(data, pos, quoted) is Some ==> {
            let (c2, p2, q2) = step(data, pos, quoted)->Some_0;
            &&& pos <= p2 <= data.len()
            &&& (p2 == pos ==> c2 is Eof)
            &&& (pos < data.len() ==> p2 > pos)
        },
{
    if pos < data.len() {
        let b = data[pos];
        if b == 47 && !quoted && pos + 1 < data.len() && data[pos + 1] == 47 {
            lemma_skip_comment_bounds(data, pos + 1);
        }
    }
}

pub proof fn lemma_advance_until_progress(data: Seq<u8>, pos: int, quoted: bool)
    requires
        pos <= data.len(),
        advance_until(data, pos, quoted) is Some,
    ensures
        pos <= (advance_until(data, pos, quoted)->Some_0).1 <= data.len(),
        (advance_until(data, pos, quoted)->Some_0).1 == pos ==> (advance_until(data, pos, quoted)->Some_0).0
            is Eof,
        pos < data.len() ==> (advance_until(data, pos, quoted)->Some_0).1 > pos,
    decreases data.len() - pos,
{
    lemma_step_progress(data, pos, quoted);
    let (tok, p2, q2) = step(data, pos, quoted)->Some_0;
    if tok is Whitespace {
        lemma_advance_until_progress(data, p2, q2);
    }
}

pub proof fn lemma_spec_advance_progress(data: Seq<u8>, pos: int, quoted: bool, cur: ReadChar)
    requires
        pos <= data.len(),
        spec_advance(data, pos, quoted, cur) is Some,
    ensures
        pos <= (spec_advance(data, pos, quoted, cur)->Some_0).1 <= data.len(),
        (spec_advance(data, pos, quoted, cur)->Some_0).1 == pos ==> (spec_advance(data, pos, quoted, cur)->Some_0).0 is Eof,
        pos < data.len() ==> (spec_advance(data, pos, quoted, cur)->Some_0).1 > pos,
{
    if cur is Whitespace {
        lemma_advance_until_progress(data, pos, quoted);
    } else {
        lemma_step_progress(data, pos, quoted);
    }
}

/// A classifying cursor over an in-memory byte input.  `peek` returns the
/// current classified character; `advance` moves to the next one.
pub struct CharReader {
    data: Vec<u8>,
    position: usize,
    is_quoted: bool,
    last_token: ReadChar,
}

impl CharReader {
    pub closed spec fn bytes(&self) -> Seq<u8> {
        self.data@
    }

    pub closed spec fn pos(&self) -> int {
        self.position as int
    }

    pub closed spec fn quoted(&self) -> bool {
        self.is_quoted
    }

    pub closed spec fn cur(&self) -> ReadChar {
        self.last_token
    }

    pub open spec fn wf(&self) -> bool {
        0 <= self.pos() <= self.bytes().len()
    }

    /// Builds a classifier over the given bytes, already advanced to the
    /// first classified character (leading whitespace and comments absorbed).
    pub fn from_io(data: &[u8]) -> (r: Result<CharReader, CharReaderError>)
        ensures
            match advance_until(data@, 0, false) {
                None => r == Err::<CharReader, CharReaderError>(
                    CharReaderError::InvalidChar(data@.len() as u64),
                ),
                Some((c, p, q)) => r matches Ok(cr) && cr.wf() && cr.bytes() == data@ && cr.cur()
                    == c && cr.pos() == p && cr.quoted() == q,
            },
    {
        let mut new_self = CharReader {
            data: vstd::slice::slice_to_vec(data),
            position: 0,
            is_quoted: false,
            last_token: ReadChar::Whitespace,
        };
        new_self.advance()?;
        Ok(new_self)
    }

    fn peek_char(&self) -> (r: Option<u8>)
        requires
            self.wf(),
        ensures
            r == if self.pos() < self.bytes().len() {
                Some(self.bytes()[self.pos()])
            } else {
                Option::<u8>::None
            },
    {
        if self.position < self.data.len() {
            Some(self.data[self.position])
        } else {
            None
        }
    }

    fn advance_char(&mut self)
        requires
            old(self).wf(),
        ensures
            final(self).wf(),
            final(self).bytes() == old(self).bytes(),
            final(self).quoted() == old(self).quoted(),
            final(self).cur() == old(self).cur(),
            final(self).pos() == if old(self).pos() < old(self).bytes().len() {
                old(self).pos() + 1
            } else {
                old(self).pos()
            },
    {
        if self.position < self.data.len() {
            self.position = self.position + 1;
        }
    }

    fn consume_comment(&mut self)
        requires
            old(self).wf(),
        ensures
            final(self).wf(),
            final(self).bytes() == old(self).bytes(),
            final(self).quoted() == old(self).quoted(),
            final(self).cur() == old(self).cur(),
            final(self).pos() == skip_comment(old(self).bytes(), old(self).pos()),
    {
        loop
            invariant_except_break
                self.wf(),
                self.bytes() == old(self).bytes(),
                self.quoted() == old(self).quoted(),
                self.cur() == old(self).cur(),
                skip_comment(self.bytes(), self.pos()) == skip_comment(
                    old(self).bytes(),
                    old(self).pos(),
                ),
            ensures
                self.wf(),
                self.bytes() == old(self).bytes(),
                self.quoted() == old(self).quoted(),
                self.cur() == old(self).cur(),
                self.pos() == skip_comment(old(self).bytes(), old(self).pos()),
            decreases self.bytes().len() - self.pos(),
        {
            match self.peek_char() {
                None => {
                    assert(self.pos() == self.bytes().len());
                    break ;
                },
                Some(data) => {
                    self.advance_char();
                    if data == 10 {
                        break ;
                    }
                },
            }
        }
    }

    fn advance_internal(&mut self) -> (r: Result<(), CharReaderError>)
        requires
            old(self).wf(),
        ensures
            final(self).wf(),
            final(self).bytes() == old(self).bytes(),
            match step(old(self).bytes(), old(self).pos(), old(self).quoted()) {
                None => r == Err::<(), CharReaderError>(
                    CharReaderError::InvalidChar(old(self).bytes().len() as u64),
                ),
                Some((c, p, q)) => r is Ok && final(self).cur() == c && final(self).pos() == p
                    && final(self).quoted() == q,
            },
    {
        let old_peek = self.peek_char();
        self.advance_char();
        match old_peek {
            None => {
                self.last_token = ReadChar::Eof;
            },
            Some(b) => {
                if b == 92 && !self.is_quoted {
                    match self.peek_char() {
                        None => {
                            self.last_token = ReadChar::Escaped('\\');
                        },
                        Some(b2) => {
                            self.advance_char();
                            self.last_token = ReadChar::Escaped(b2 as char);
                        },
                    }
                } else if b == 47 && !self.is_quoted {
                    match self.peek_char() {
                        Some(b2) => {
                            if b2 == 47 {
                                self.consume_comment();
                                self.last_token = ReadChar::Whitespace;
                            } else {
                                self.last_token = ReadChar::Normal('/');
                            }
                        },
                        None => {
                            self.last_token = ReadChar::Normal('/');
                        },
                    }
                } else if b == 34 {
                    self.is_quoted = !self.is_quoted;
                    self.last_token = ReadChar::Normal('"');
                } else if self.is_quoted {
                    self.last_token = ReadChar::Normal(b as char);
                } else if ws_byte(b) {
                    self.last_token = ReadChar::Whitespace;
                } else {
                    self.last_token = ReadChar::Normal(b as char);
                }
            },
        }
        Ok(())
    }

    /// Moves to the next classified character; a whole whitespace run counts
    /// as one classification.
    pub fn advance(&mut self) -> (r: Result<(), CharReaderError>)
        requires
            old(self).wf(),
        ensures
            final(self).wf(),
            final(self).bytes() == old(self).bytes(),
            match spec_advance(
                old(self).bytes(),
                old(self).pos(),
                old(self).quoted(),
                old(self).cur(),
            ) {
                None => r == Err::<(), CharReaderError>(
                    CharReaderError::InvalidChar(old(self).bytes().len() as u64),
                ),
                Some((c, p, q)) => r is Ok && final(self).cur() == c && final(self).pos() == p
                    && final(self).quoted() == q,
            },
    {
        if self.last_token.is_whitespace() {
            proof {
                lemma_step_progress(self.bytes(), self.pos(), self.quoted());
                if step(self.bytes(), self.pos(), self.quoted()) is None {
                    assert(advance_until(self.bytes(), self.pos(), self.quoted()) is None);
                }
            }
            self.advance_internal()?;
            while self.last_token.is_whitespace()
                invariant
                    old(self).wf(),
                    old(self).cur() is Whitespace,
                    self.wf(),
                    self.bytes() == old(self).bytes(),
                    self.cur() is Whitespace ==> advance_until(
                        self.bytes(),
                        self.pos(),
                        self.quoted(),
                    ) == advance_until(old(self).bytes(), old(self).pos(), old(self).quoted()),
                    !(self.cur() is Whitespace) ==> advance_until(
                        old(self).bytes(),
                        old(self).pos(),
                        old(self).quoted(),
                    ) == Some((self.cur(), self.pos(), self.quoted())),
                decreases self.bytes().len() - self.pos(), tok_rank(self.cur()),
            {
                proof {
                    lemma_step_progress(self.bytes(), self.pos(), self.quoted());
                    if step(self.bytes(), self.pos(), self.quoted()) is None {
                        assert(advance_until(self.bytes(), self.pos(), self.quoted()) is None);
                    }
                }
                self.advance_internal()?;
            }
        } else {
            self.advance_internal()?;
        }
        Ok(())
    }

    /// The current classified character.
    pub fn peek(&self) -> (r: ReadChar)
        ensures
            r == self.cur(),
    {
        self.last_token
    }
}

/// Orders classifications for termination: end of input below everything else.
pub open spec fn tok_rank(t: ReadChar) -> int {
    if t is Eof {
        0
    } else {
        1
    }
}

} // verus!
