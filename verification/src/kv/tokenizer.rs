//! A standalone tokenizer for the key/value text format: braces, flag
//! brackets and the negation mark as structural tokens, quoted and unquoted
//! text, line comments, and end of input.  Quoted text is read verbatim up to
//! the closing quote, with no escape processing; unquoted text processes
//! backslash escapes and ends at whitespace, a structural character, or a
//! line comment.

use vstd::prelude::*;

use crate::kv::char_reader::is_ws_byte;
use crate::text::{empty_string, push_char};

verus! {

/// An error from tokenization: end of input inside a quoted text, or an
/// error of the byte source, which the in-memory tokenizer never produces
/// but callers can match on.
#[derive(Debug, PartialEq, Eq, Structural, Clone, Copy)]
pub enum TokenizerError {
    IOError,
    UnterminatedText,
}

/// One lexical token.
#[derive(Debug, PartialEq)]
pub enum Token {
    OpenBlock,
    CloseBlock,
    OpenFlag,
    CloseFlag,
    Negate,
    Text(String),
    Eof,
}

/// The model of a token.
pub enum TokenM {
    OpenBlock,
    CloseBlock,
    OpenFlag,
    CloseFlag,
    Negate,
    Text(Seq<char>),
    Eof,
}

pub open spec fn token_model(t: &Token) -> TokenM {
    match t {
        Token::OpenBlock => TokenM::OpenBlock,
        Token::CloseBlock => TokenM::CloseBlock,
        Token::OpenFlag => TokenM::OpenFlag,
        Token::CloseFlag => TokenM::CloseFlag,
        Token::Negate => TokenM::Negate,
        Token::Text(s) => TokenM::Text(s@),
        Token::Eof => TokenM::Eof,
    }
}

/// The unread distance to the end of the input, clamped at zero.
pub open spec fn t_rem(data: Seq<u8>, pos: int) -> int {
    if pos <= data.len() {
        data.len() - pos
    } else {
        0
    }
}

/// The first position at or after `pos` whose byte is not whitespace.
pub open spec fn t_skip_ws(data: Seq<u8>, pos: int) -> int
    decreases data.len() - pos,
{
    if pos >= data.len() {
        data.len() as int
    } else if is_ws_byte(data[pos]) {
        t_skip_ws(data, pos + 1)
    } else {
        pos
    }
}

pub proof fn lemma_t_skip_ws_bounds(data: Seq<u8>, pos: int)
    requires
        pos <= data.len(),
    ensures
        pos <= t_skip_ws(data, pos) <= data.len(),
    decreases data.len() - pos,
{
    if pos < data.len() && is_ws_byte(data[pos]) {
        lemma_t_skip_ws_bounds(data, pos + 1);
    }
}

/// The position of the next newline at or after `pos`, or the length: a line
/// comment is discarded up to, and not including, the newline.
pub open spec fn t_skip_comment(data: Seq<u8>, pos: int) -> int
    decreases data.len() - pos,
{
    if pos >= data.len() {
        data.len() as int
    } else if data[pos] == 10 {
        pos
    } else {
        t_skip_comment(data, pos + 1)
    }
}

pub proof fn lemma_t_skip_comment_bounds(data: Seq<u8>, pos: int)
    requires
        pos <= data.len(),
    ensures
        pos <= t_skip_comment(data, pos) <= data.len(),
    decreases data.len() - pos,
{
    if pos < data.len() && data[pos] != 10 {
        lemma_t_skip_comment_bounds(data, pos + 1);
    }
}

/// The body of a quoted text from `pos`: every character verbatim, backslash
/// included, up to the closing quote, which is consumed and discarded.  End
/// of input before the closing quote is an unterminated-text error.
pub open spec fn t_qstr(data: Seq<u8>, pos: int) -> Result<(Seq<char>, int), TokenizerError>
    decreases data.len() - pos,
{
    if pos >= data.len() {
        Err(TokenizerError::UnterminatedText)
    } else if data[pos] == 34 {
        Ok((Seq::empty(), pos + 1))
    } else {
        match t_qstr(data, pos + 1) {
            Err(e) => Err(e),
            Ok((t, p)) => Ok((seq![data[pos] as char] + t, p)),
        }
    }
}

/// An unquoted text from `pos`: characters until whitespace, a structural
/// character, a line comment, or end of input.  A backslash is dropped and
/// the character after it kept verbatim, structural or not; a backslash
/// pending at the end of input or when a comment begins is itself kept.
pub open spec fn t_uqstr(data: Seq<u8>, pos: int, cancelled: bool) -> (Seq<char>, int)
    decreases data.len() - pos,
    via t_uqstr_decreases
{
    if pos >= data.len() {
        (
            if cancelled {
                seq!['\\']
            } else {
                Seq::<char>::empty()
            },
            pos,
        )
    } else {
        let b = data[pos];
        if b == 47 && pos + 1 < data.len() && data[pos + 1] == 47 {
            (
                if cancelled {
                    seq!['\\']
                } else {
                    Seq::<char>::empty()
                },
                t_skip_comment(data, pos + 2),
            )
        } else if cancelled {
            let r = t_uqstr(data, pos + 1, false);
            (seq![b as char] + r.0, r.1)
        } else if is_ws_byte(b) {
            (Seq::empty(), pos + 1)
        } else if b == 92 {
            t_uqstr(data, pos + 1, true)
        } else if b == 123 || b == 125 || b == 91 || b == 93 || b == 33 {
            (Seq::empty(), pos)
        } else {
            let r = t_uqstr(data, pos + 1, false);
            (seq![b as char] + r.0, r.1)
        }
    }
}

#[via_fn]
proof fn t_uqstr_decreases(data: Seq<u8>, pos: int, cancelled: bool) {
}

/// The next token from `pos` and the position after it: whitespace and line
/// comments are absorbed, braces, flag brackets and the negation mark are
/// structural, a quote opens a quoted text, and anything else begins an
/// unquoted text.
pub open spec fn t_next(data: Seq<u8>, pos: int) -> Result<(TokenM, int), TokenizerError>
    decreases t_rem(data, pos),
    via t_next_decreases
{
    let p = t_skip_ws(data, pos);
    if p >= data.len() {
        Ok((TokenM::Eof, p))
    } else {
        let b = data[p];
        if b == 123 {
            Ok((TokenM::OpenBlock, p + 1))
        } else if b == 125 {
            Ok((TokenM::CloseBlock, p + 1))
        } else if b == 91 {
            Ok((TokenM::OpenFlag, p + 1))
        } else if b == 93 {
            Ok((TokenM::CloseFlag, p + 1))
        } else if b == 33 {
            Ok((TokenM::Negate, p + 1))
        } else if b == 34 {
            match t_qstr(data, p + 1) {
                Err(e) => Err(e),
                Ok((t, p2)) => Ok((TokenM::Text(t), p2)),
            }
        } else if b == 47 && p + 1 < data.len() && data[p + 1] == 47 {
            t_next(data, t_skip_comment(data, p + 2))
        } else {
            let r = t_uqstr(data, p, false);
            Ok((TokenM::Text(r.0), r.1))
        }
    }
}

#[via_fn]
proof fn t_next_decreases(data: Seq<u8>, pos: int) {
    if pos <= data.len() {
        lemma_t_skip_ws_bounds(data, pos);
        let p = t_skip_ws(data, pos);
        if p < data.len() && p + 2 <= data.len() {
            lemma_t_skip_comment_bounds(data, p + 2);
        }
    } else {
        assert(t_skip_ws(data, pos) == data.len());
    }
}

/// A tokenizer over an in-memory byte input.
pub struct Tokenizer {
    data: Vec<u8>,
    position: usize,
}

impl Tokenizer {
    pub closed spec fn bytes(&self) -> Seq<u8> {
        self.data@
    }

    pub closed spec fn pos(&self) -> int {
        self.position as int
    }

    pub open spec fn wf(&self) -> bool {
        0 <= self.pos() <= self.bytes().len()
    }

    /// A tokenizer over the given bytes, positioned before the first token.
    pub fn from_io(read: &[u8]) -> (r: Result<Tokenizer, TokenizerError>)
        ensures
            r matches Ok(t) && t.wf() && t.bytes() == read@ && t.pos() == 0,
    {
        Ok(Tokenizer { data: vstd::slice::slice_to_vec(read), position: 0 })
    }

    fn peek(&self) -> (r: Option<u8>)
        requires
            self.wf(),
        ensures
            r == if self.pos() < self.bytes().len() {
                Some(self.bytes()[self.pos()])
            } else {
                Option::<u8>::None
            },
    {
        if self.position < self.data.len() {
            Some(self.data[self.position])
        } else {
            None
        }
    }

    fn advance(&mut self) -> (r: Result<(), TokenizerError>)
        requires
            old(self).wf(),
        ensures
            final(self).wf(),
            final(self).bytes() == old(self).bytes(),
            r is Ok,
            final(self).pos() == if old(self).pos() < old(self).bytes().len() {
                old(self).pos() + 1
            } else {
                old(self).pos()
            },
    {
        if self.position < self.data.len() {
            self.position = self.position + 1;
        }
        Ok(())
    }

    fn rewind(&mut self)
        requires
            old(self).wf(),
            old(self).pos() > 0,
        ensures
            final(self).wf(),
            final(self).bytes() == old(self).bytes(),
            final(self).pos() == old(self).pos() - 1,
    {
        self.position = self.position - 1;
    }

    fn is_special_character(data: u8) -> (r: bool)
        ensures
            r == (data == 123 || data == 125 || data == 91 || data == 93 || data == 33),
    {
        data == 123 || data == 125 || data == 91 || data == 93 || data == 33
    }

    fn consume_whitespace(&mut self) -> (r: Result<(), TokenizerError>)
        requires
            old(self).wf(),
        ensures
            final(self).wf(),
            final(self).bytes() == old(self).bytes(),
            r is Ok,
            final(self).pos() == t_skip_ws(old(self).bytes(), old(self).pos()),
    {
        loop
            invariant_except_break
                self.wf(),
                self.bytes() == old(self).bytes(),
                t_skip_ws(self.bytes(), self.pos()) == t_skip_ws(
                    old(self).bytes(),
                    old(self).pos(),
                ),
            ensures
                self.wf(),
                self.bytes() == old(self).bytes(),
                self.pos() == t_skip_ws(old(self).bytes(), old(self).pos()),
            decreases self.bytes().len() - self.pos(),
        {
            match self.peek() {
                None => {
                    break ;
                },
                Some(data) => {
                    if !crate::kv::char_reader::ws_byte(data) {
                        break ;
                    }
                    self.advance()?;
                },
            }
        }
        Ok(())
    }

    fn consume_comment(&mut self) -> (r: Result<(), TokenizerError>)
        requires
            old(self).wf(),
        ensures
            final(self).wf(),
            final(self).bytes() == old(self).bytes(),
            r is Ok,
            final(self).pos() == t_skip_comment(old(self).bytes(), old(self).pos()),
    {
        loop
            invariant_except_break
                self.wf(),
                self.bytes() == old(self).bytes(),
                t_skip_comment(self.bytes(), self.pos()) == t_skip_comment(
                    old(self).bytes(),
                    old(self).pos(),
                ),
            ensures
                self.wf(),
                self.bytes() == old(self).bytes(),
                self.pos() == t_skip_comment(old(self).bytes(), old(self).pos()),
            decreases self.bytes().len() - self.pos(),
        {
            match self.peek() {
                None => {
                    break ;
                },
                Some(data) => {
                    if data == 10 {
                        break ;
                    }
                    self.advance()?;
                },
            }
        }
        Ok(())
    }

    fn read_quote_string(&mut self) -> (r: Result<String, TokenizerError>)
        requires
            old(self).wf(),
            old(self).pos() < old(self).bytes().len(),
        ensures
            final(self).wf(),
            final(self).bytes() == old(self).bytes(),
            match t_qstr(old(self).bytes(), old(self).pos() + 1) {
                Ok((t, p)) => r matches Ok(s) && s@ == t && final(self).pos() == p,
                Err(e) => r matches Err(e2) && e2 == e,
            },
    {
        self.advance()?;
        let mut string = empty_string();
        let ghost target = t_qstr(old(self).bytes(), old(self).pos() + 1);
        loop
            invariant
                self.wf(),
                self.bytes() == old(self).bytes(),
                target == t_qstr(old(self).bytes(), old(self).pos() + 1),
                match t_qstr(self.bytes(), self.pos()) {
                    Ok((t, p)) => target == Ok::<(Seq<char>, int), TokenizerError>(
                        (string@ + t, p),
                    ),
                    Err(e) => target == Err::<(Seq<char>, int), TokenizerError>(e),
                },
            decreases self.bytes().len() - self.pos(),
        {
            match self.peek() {
                None => {
                    return Err(TokenizerError::UnterminatedText);
                },
                Some(data) => {
                    self.advance()?;
                    if data == 34 {
                        proof {
                            assert(string@ + Seq::<char>::empty() =~= string@);
                        }
                        return Ok(string);
                    }
                    let ghost s_old = string@;
                    push_char(&mut string, data as char);
                    proof {
                        match t_qstr(self.bytes(), self.pos()) {
                            Ok((t, p)) => {
                                assert(s_old + (seq![data as char] + t) =~= s_old.push(
                                    data as char,
                                ) + t);
                            },
                            Err(_) => {},
                        }
                    }
                },
            }
        }
    }

    fn read_quoteless_string(&mut self) -> (r: Result<String, TokenizerError>)
        requires
            old(self).wf(),
        ensures
            final(self).wf(),
            final(self).bytes() == old(self).bytes(),
            r matches Ok(s) && s@ == t_uqstr(old(self).bytes(), old(self).pos(), false).0
                && final(self).pos() == t_uqstr(old(self).bytes(), old(self).pos(), false).1,
    {
        let mut string = empty_string();
        let mut cancelled = false;
        let ghost target = t_uqstr(old(self).bytes(), old(self).pos(), false);
        loop
            invariant
                self.wf(),
                self.bytes() == old(self).bytes(),
                target == t_uqstr(old(self).bytes(), old(self).pos(), false),
                target.0 == string@ + t_uqstr(self.bytes(), self.pos(), cancelled).0,
                target.1 == t_uqstr(self.bytes(), self.pos(), cancelled).1,
            decreases self.bytes().len() - self.pos(),
        {
            match self.peek() {
                None => {
                    if cancelled {
                        let ghost s_old = string@;
                        push_char(&mut string, '\\');
                        proof {
                            assert(s_old + seq!['\\'] =~= s_old.push('\\'));
                        }
                    } else {
                        proof {
                            assert(string@ + Seq::<char>::empty() =~= string@);
                        }
                    }
                    return Ok(string);
                },
                Some(data) => {
                    if data == 47 {
                        self.advance()?;
                        let second = self.peek();
                        let mut is_comment = false;
                        match second {
                            Some(c2) => {
                                if c2 == 47 {
                                    is_comment = true;
                                }
                            },
                            None => {},
                        }
                        if is_comment {
                            if cancelled {
                                let ghost s_old = string@;
                                push_char(&mut string, '\\');
                                proof {
                                    assert(s_old + seq!['\\'] =~= s_old.push('\\'));
                                }
                            } else {
                                proof {
                                    assert(string@ + Seq::<char>::empty() =~= string@);
                                }
                            }
                            self.advance()?;
                            self.consume_comment()?;
                            return Ok(string);
                        }
                        self.rewind();
                    }
                    if cancelled {
                        cancelled = false;
                    } else {
                        if crate::kv::char_reader::ws_byte(data) {
                            self.advance()?;
                            proof {
                                assert(string@ + Seq::<char>::empty() =~= string@);
                            }
                            return Ok(string);
                        } else if data == 92 {
                            cancelled = true;
                            self.advance()?;
                            continue ;
                        } else if Self::is_special_character(data) {
                            proof {
                                assert(string@ + Seq::<char>::empty() =~= string@);
                            }
                            return Ok(string);
                        }
                    }
                    self.advance()?;
                    let ghost s_old = string@;
                    push_char(&mut string, data as char);
                    proof {
                        let rest = t_uqstr(self.bytes(), self.pos(), false);
                        assert(s_old + (seq![data as char] + rest.0) =~= s_old.push(data as char)
                            + rest.0);
                    }
                },
            }
        }
    }

    /// The next token of the input, consuming it.
    pub fn next_token(&mut self) -> (r: Result<Token, TokenizerError>)
        requires
            old(self).wf(),
        ensures
            final(self).wf(),
            final(self).bytes() == old(self).bytes(),
            match t_next(old(self).bytes(), old(self).pos()) {
                Ok((tm, p)) => r matches Ok(t) && token_model(&t) == tm && final(self).pos() == p,
                Err(e) => r matches Err(e2) && e2 == e,
            },
        decreases t_rem(old(self).bytes(), old(self).pos()),
    {
        self.consume_whitespace()?;
        proof {
            lemma_t_skip_ws_bounds(old(self).bytes(), old(self).pos());
        }
        match self.peek() {
            None => Ok(Token::Eof),
            Some(first) => {
                if first == 123 {
                    self.advance()?;
                    Ok(Token::OpenBlock)
                } else if first == 125 {
                    self.advance()?;
                    Ok(Token::CloseBlock)
                } else if first == 91 {
                    self.advance()?;
                    Ok(Token::OpenFlag)
                } else if first == 93 {
                    self.advance()?;
                    Ok(Token::CloseFlag)
                } else if first == 33 {
                    self.advance()?;
                    Ok(Token::Negate)
                } else if first == 34 {
                    let s = self.read_quote_string()?;
                    Ok(Token::Text(s))
                } else if first == 47 {
                    self.advance()?;
                    let second = self.peek();
                    let mut is_comment = false;
                    match second {
                        Some(c2) => {
                            if c2 == 47 {
                                is_comment = true;
                            }
                        },
                        None => {},
                    }
                    if is_comment {
                        self.advance()?;
                        proof {
                            lemma_t_skip_comment_bounds(self.bytes(), self.pos());
                        }
                        self.consume_comment()?;
                        return self.next_token();
                    }
                    self.rewind();
                    let s = self.read_quoteless_string()?;
                    Ok(Token::Text(s))
                } else {
                    let s = self.read_quoteless_string()?;
                    Ok(Token::Text(s))
                }
            },
        }
    }
}

} // verus!
