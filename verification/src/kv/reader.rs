//! Recursive-descent parsing of the hierarchical key/value text format over
//! a classified character stream.  An object is a list of entries; each entry
//! is a key, a value (a text string or a nested object), and an optional
//! conditional flag (`[name]` or `[!name]`).  Duplicate keys are allowed in
//! the stored entry list; lookup takes the last entry for a key, so a later
//! duplicate silently overwrites an earlier one.

use vstd::prelude::*;

use crate::kv::char_reader::{
    advance_until, spec_advance, tok_rank, CharReader, CharReaderError, ReadChar,
};
use crate::text::{empty_string, push_char, str_eq};

verus! {

broadcast use vstd::std_specs::vec::group_vec_axioms;

/// An error from parsing.
#[derive(Debug, PartialEq, Eq, Structural, Clone, Copy)]
pub enum ReaderError {
    /// An error of the underlying character stream's byte source, which the
    /// in-memory classifier never produces; kept so that callers can match
    /// on it.
    Char(CharReaderError),
    /// A classified character that cannot begin or continue the expected
    /// construct.
    InvalidChar(ReadChar),
    /// End of input inside a quoted string, a flag, or a block.
    UnexpectedEof,
}

/// The conditional flag attached to one entry.
#[derive(Debug, PartialEq)]
pub enum Flag {
    Absent,
    Normal(String),
    Negated(String),
}

/// A parsed value: a text string or a nested object.
#[derive(Debug, PartialEq)]
pub enum Value {
    String(String),
    Object(Object),
}

/// A parsed object: a list of entries in input order.
#[derive(Debug, PartialEq)]
pub struct Object {
    entries: Vec<Entry>,
}

/// One key/flag/value entry of an object.
#[derive(Debug, PartialEq)]
struct Entry {
    key: String,
    flag: Flag,
    value: Value,
}

/// A parsed document: the root object.
#[derive(Debug, PartialEq)]
pub struct KeyValues {
    root: Object,
}

// ---------------------------------------------------------------------------
// The mathematical model of parsed trees.
// ---------------------------------------------------------------------------

/// The model of a flag.
pub enum FlagM {
    Absent,
    Normal(Seq<char>),
    Negated(Seq<char>),
}

/// The model of a value.
pub enum ValueM {
    Text(Seq<char>),
    Obj(Seq<EntryM>),
}

/// The model of one entry.
pub struct EntryM {
    pub key: Seq<char>,
    pub flag: FlagM,
    pub value: ValueM,
}

pub open spec fn flag_model(f: &Flag) -> FlagM {
    match f {
        Flag::Absent => FlagM::Absent,
        Flag::Normal(s) => FlagM::Normal(s@),
        Flag::Negated(s) => FlagM::Negated(s@),
    }
}

pub open spec fn value_model(v: &Value) -> ValueM
    decreases v,
{
    match v {
        Value::String(s) => ValueM::Text(s@),
        Value::Object(o) => ValueM::Obj(obj_model(o)),
    }
}

spec fn entries_model(es: Seq<Entry>) -> Seq<EntryM>
    decreases es,
{
    if es.len() <= 0 {
        Seq::empty()
    } else {
        seq![
            EntryM {
                key: es[0].key@,
                flag: flag_model(&es[0].flag),
                value: value_model(&es[0].value),
            },
        ] + entries_model(es.subrange(1, es.len() as int))
    }
}

pub closed spec fn obj_model(o: &Object) -> Seq<EntryM>
    decreases o,
{
    entries_model(o.entries@)
}

// ---------------------------------------------------------------------------
// The parser state and its measure.
// ---------------------------------------------------------------------------

/// The state of the classified character stream as the parser sees it.
pub struct PState {
    pub pos: int,
    pub quoted: bool,
    pub cur: ReadChar,
}

pub open spec fn st_of(r: &CharReader) -> PState {
    PState { pos: r.pos(), quoted: r.quoted(), cur: r.cur() }
}

pub open spec fn st_wf(data: Seq<u8>, st: PState) -> bool {
    0 <= st.pos <= data.len()
}

/// The number of unread bytes, clamped at zero.
pub open spec fn rem(data: Seq<u8>, st: PState) -> int {
    if st.pos <= data.len() {
        data.len() - st.pos
    } else {
        0
    }
}

/// Strict order on parser states: fewer unread bytes, or equally many and the
/// current classification already at end of input.
pub open spec fn m_lt(data: Seq<u8>, a: PState, b: PState) -> bool {
    rem(data, a) < rem(data, b) || (rem(data, a) == rem(data, b) && tok_rank(a.cur) < tok_rank(
        b.cur,
    ))
}

pub open spec fn m_le(data: Seq<u8>, a: PState, b: PState) -> bool {
    rem(data, a) < rem(data, b) || (rem(data, a) == rem(data, b) && tok_rank(a.cur) <= tok_rank(
        b.cur,
    ))
}

/// The error value of a failed classification step.  The in-memory
/// classifier classifies every input, so no run produces it; the grammar
/// functions stay total over the channel.
pub open spec fn char_err(data: Seq<u8>) -> ReaderError {
    ReaderError::Char(CharReaderError::InvalidChar(data.len() as u64))
}

// ---------------------------------------------------------------------------
// The grammar, as functions from parser state to result and new state.
// ---------------------------------------------------------------------------

/// One move of the classified stream.
pub open spec fn s_advance(data: Seq<u8>, st: PState) -> Result<PState, ReaderError> {
    match spec_advance(data, st.pos, st.quoted, st.cur) {
        None => Err(char_err(data)),
        Some((c, p, q)) => Ok(PState { pos: p, quoted: q, cur: c }),
    }
}

/// One move, then one more if the first lands on whitespace: the move between
/// two constructs.
pub open spec fn s_advance_ws(data: Seq<u8>, st: PState) -> Result<PState, ReaderError> {
    match s_advance(data, st) {
        Err(e) => Err(e),
        Ok(st1) => if st1.cur is Whitespace {
            s_advance(data, st1)
        } else {
            Ok(st1)
        },
    }
}

/// Whitespace among the characters that can appear in classifications.
pub open spec fn char_is_ws(c: char) -> bool {
    c == ' ' || c == '\t' || c == '\n' || c == '\u{0b}' || c == '\u{0c}' || c == '\r' || c
        == '\u{85}' || c == '\u{a0}'
}

/// Whether a classified character can stand inside an unquoted text: any
/// escaped character, and any normal character that is not structural, not a
/// quote and not whitespace.
pub open spec fn is_unq_char(rc: ReadChar) -> bool {
    match rc {
        ReadChar::Normal(c) => !(c == '{' || c == '}' || c == '[' || c == ']' || c == '!' || c
            == '"') && !char_is_ws(c),
        ReadChar::Escaped(_) => true,
        _ => false,
    }
}

/// The body of a quoted text, read from the first content character: every
/// character verbatim until the closing quote, which is consumed together
/// with any whitespace after it.  End of input first is an error.  Inside
/// quotes the classifier emits no whitespace classification, so that case is
/// an error too rather than anything a well-formed run could see.
pub open spec fn s_qtext(data: Seq<u8>, st: PState) -> Result<(Seq<char>, PState), ReaderError>
    decreases rem(data, st), tok_rank(st.cur),
    via s_qtext_decreases
{
    if st.cur == ReadChar::Normal('"') {
        match s_advance_ws(data, st) {
            Err(e) => Err(e),
            Ok(st2) => Ok((Seq::empty(), st2)),
        }
    } else if st.cur is Eof {
        Err(ReaderError::UnexpectedEof)
    } else if st.cur is Whitespace {
        Err(ReaderError::InvalidChar(ReadChar::Whitespace))
    } else {
        match s_advance(data, st) {
            Err(e) => Err(e),
            Ok(st1) => match s_qtext(data, st1) {
                Err(e) => Err(e),
                Ok((txt, st2)) => Ok((seq![st.cur.spec_char()] + txt, st2)),
            },
        }
    }
}

#[via_fn]
proof fn s_qtext_decreases(data: Seq<u8>, st: PState) {
    lemma_sadv_progress(data, st);
}

/// A quoted text from its opening quote.
pub open spec fn s_text_quoted(data: Seq<u8>, st: PState) -> Result<
    (Seq<char>, PState),
    ReaderError,
> {
    match s_advance(data, st) {
        Err(e) => Err(e),
        Ok(st1) => s_qtext(data, st1),
    }
}

/// An unquoted text: text characters until a delimiter, one trailing
/// whitespace run consumed.
pub open spec fn s_unqtext(data: Seq<u8>, st: PState) -> Result<(Seq<char>, PState), ReaderError>
    decreases rem(data, st), tok_rank(st.cur),
    via s_unqtext_decreases
{
    if is_unq_char(st.cur) {
        match s_advance(data, st) {
            Err(e) => Err(e),
            Ok(st1) => match s_unqtext(data, st1) {
                Err(e) => Err(e),
                Ok((txt, st2)) => Ok((seq![st.cur.spec_char()] + txt, st2)),
            },
        }
    } else if st.cur is Whitespace {
        match s_advance(data, st) {
            Err(e) => Err(e),
            Ok(st1) => Ok((Seq::empty(), st1)),
        }
    } else {
        Ok((Seq::empty(), st))
    }
}

#[via_fn]
proof fn s_unqtext_decreases(data: Seq<u8>, st: PState) {
    lemma_sadv_progress(data, st);
}

/// A text: quoted if it starts with a normal quote, unquoted otherwise.
pub open spec fn s_text(data: Seq<u8>, st: PState) -> Result<(Seq<char>, PState), ReaderError> {
    if st.cur == ReadChar::Normal('"') {
        s_text_quoted(data, st)
    } else {
        s_unqtext(data, st)
    }
}

/// The name inside a flag: characters until the closing bracket, which is
/// consumed together with any whitespace after it.  End of input is an error,
/// and so is whitespace, which cannot stand in a flag name.
pub open spec fn s_flagname(data: Seq<u8>, st: PState) -> Result<(Seq<char>, PState), ReaderError>
    decreases rem(data, st), tok_rank(st.cur),
    via s_flagname_decreases
{
    if st.cur == ReadChar::Normal(']') {
        match s_advance_ws(data, st) {
            Err(e) => Err(e),
            Ok(st2) => Ok((Seq::empty(), st2)),
        }
    } else if st.cur is Eof {
        Err(ReaderError::UnexpectedEof)
    } else if st.cur is Whitespace {
        Err(ReaderError::InvalidChar(ReadChar::Whitespace))
    } else {
        match s_advance(data, st) {
            Err(e) => Err(e),
            Ok(st1) => match s_flagname(data, st1) {
                Err(e) => Err(e),
                Ok((txt, st2)) => Ok((seq![st.cur.spec_char()] + txt, st2)),
            },
        }
    }
}

#[via_fn]
proof fn s_flagname_decreases(data: Seq<u8>, st: PState) {
    lemma_sadv_progress(data, st);
}

/// An optional flag after an entry: absent unless the current classification
/// is an opening bracket; `!` right after the bracket negates it.
pub open spec fn s_flag(data: Seq<u8>, st: PState) -> Result<(FlagM, PState), ReaderError> {
    if st.cur != ReadChar::Normal('[') {
        Ok((FlagM::Absent, st))
    } else {
        match s_advance_ws(data, st) {
            Err(e) => Err(e),
            Ok(st1) => if st1.cur == ReadChar::Normal('!') {
                match s_advance_ws(data, st1) {
                    Err(e) => Err(e),
                    Ok(st2) => match s_flagname(data, st2) {
                        Err(e) => Err(e),
                        Ok((name, st3)) => Ok((FlagM::Negated(name), st3)),
                    },
                }
            } else {
                match s_flagname(data, st1) {
                    Err(e) => Err(e),
                    Ok((name, st2)) => Ok((FlagM::Normal(name), st2)),
                }
            },
        }
    }
}

/// A value: a nested object between braces, or a text.
pub open spec fn s_value(data: Seq<u8>, st: PState) -> Result<(ValueM, PState), ReaderError>
    decreases rem(data, st), tok_rank(st.cur), 1int,
    via s_value_decreases
{
    if st.cur == ReadChar::Normal('{') {
        match s_advance_ws(data, st) {
            Err(e) => Err(e),
            Ok(st1) => match s_object(data, st1) {
                Err(e) => Err(e),
                Ok((entries, st2)) => if st2.cur == ReadChar::Normal('}') {
                    match s_advance_ws(data, st2) {
                        Err(e) => Err(e),
                        Ok(st3) => Ok((ValueM::Obj(entries), st3)),
                    }
                } else {
                    Err(ReaderError::UnexpectedEof)
                },
            },
        }
    } else if is_unq_char(st.cur) || st.cur == ReadChar::Normal('"') {
        match s_text(data, st) {
            Err(e) => Err(e),
            Ok((txt, st1)) => Ok((ValueM::Text(txt), st1)),
        }
    } else {
        Err(ReaderError::InvalidChar(st.cur))
    }
}

#[via_fn]
proof fn s_value_decreases(data: Seq<u8>, st: PState) {
    lemma_sadv_ws_progress(data, st);
}

/// An object: entries until end of input or a closing brace, neither of which
/// is consumed.  Each entry is a text key, a value and an optional flag.
/// Every entry consumes input, so the guard on the recursion always holds; it
/// only makes the recursion evidently bounded.
pub open spec fn s_object(data: Seq<u8>, st: PState) -> Result<
    (Seq<EntryM>, PState),
    ReaderError,
>
    decreases rem(data, st), tok_rank(st.cur), 0int,
    via s_object_decreases
{
    if st.cur is Eof || st.cur == ReadChar::Normal('}') {
        Ok((Seq::empty(), st))
    } else if !(is_unq_char(st.cur) || st.cur == ReadChar::Normal('"')) {
        Err(ReaderError::InvalidChar(st.cur))
    } else {
        match s_text(data, st) {
            Err(e) => Err(e),
            Ok((key, st1)) => match s_value(data, st1) {
                Err(e) => Err(e),
                Ok((val, st2)) => match s_flag(data, st2) {
                    Err(e) => Err(e),
                    Ok((flag, st3)) => if m_lt(data, st3, st) {
                        match s_object(data, st3) {
                            Err(e) => Err(e),
                            Ok((rest, st4)) => Ok(
                                (seq![EntryM { key, flag, value: val }] + rest, st4),
                            ),
                        }
                    } else {
                        arbitrary()
                    },
                },
            },
        }
    }
}

#[via_fn]
proof fn s_object_decreases(data: Seq<u8>, st: PState) {
    lemma_s_text_progress(data, st);
}

/// What parsing a whole input yields: the classifier starts before the first
/// classification, and the root object runs to end of input or stops at a
/// stray closing brace.
pub open spec fn spec_parse(data: Seq<u8>) -> Result<Seq<EntryM>, ReaderError> {
    match advance_until(data, 0, false) {
        None => Err(char_err(data)),
        Some((c, p, q)) => match s_object(data, PState { pos: p, quoted: q, cur: c }) {
            Err(e) => Err(e),
            Ok((entries, _)) => Ok(entries),
        },
    }
}

// ---------------------------------------------------------------------------
// Progress: every production keeps the state well formed and consumes input.
// ---------------------------------------------------------------------------

pub proof fn lemma_sadv_progress(data: Seq<u8>, st: PState)
    ensures
        s_advance(data, st) matches Ok(st1) ==> {
            &&& st.pos <= data.len() ==> st_wf(data, st1) || st.pos < 0
            &&& m_le(data, st1, st)
            &&& !(st.cur is Eof) ==> m_lt(data, st1, st)
            &&& st1.pos >= st.pos
            &&& st1.pos <= data.len() || st1.pos == st.pos
        },
{
    if st.pos <= data.len() {
        if spec_advance(data, st.pos, st.quoted, st.cur) is Some {
            crate::kv::char_reader::lemma_spec_advance_progress(data, st.pos, st.quoted, st.cur);
        }
    } else {
        assert(spec_advance(data, st.pos, st.quoted, st.cur) == Some(
            (ReadChar::Eof, st.pos, st.quoted),
        ));
    }
}

pub proof fn lemma_sadv_ws_progress(data: Seq<u8>, st: PState)
    ensures
        s_advance_ws(data, st) matches Ok(st2) ==> {
            &&& m_le(data, st2, st)
            &&& !(st.cur is Eof) ==> m_lt(data, st2, st)
            &&& st2.pos >= st.pos
            &&& st2.pos <= data.len() || st2.pos == st.pos
        },
{
    lemma_sadv_progress(data, st);
    match s_advance(data, st) {
        Ok(st1) => lemma_sadv_progress(data, st1),
        Err(_) => (),
    }
}

pub proof fn lemma_s_qtext_progress(data: Seq<u8>, st: PState)
    ensures
        s_qtext(data, st) matches Ok((txt, st2)) ==> m_le(data, st2, st) && st2.pos >= st.pos && (
        st2.pos <= data.len() || st2.pos == st.pos),
    decreases rem(data, st), tok_rank(st.cur),
{
    if st.cur == ReadChar::Normal('"') {
        lemma_sadv_ws_progress(data, st);
    } else if st.cur is Eof || st.cur is Whitespace {
    } else {
        lemma_sadv_progress(data, st);
        match s_advance(data, st) {
            Ok(st1) => lemma_s_qtext_progress(data, st1),
            Err(_) => (),
        }
    }
}

pub proof fn lemma_s_unqtext_progress(data: Seq<u8>, st: PState)
    ensures
        s_unqtext(data, st) matches Ok((txt, st2)) ==> {
            &&& m_le(data, st2, st)
            &&& is_unq_char(st.cur) ==> m_lt(data, st2, st)
            &&& st2.pos >= st.pos
            &&& st2.pos <= data.len() || st2.pos == st.pos
        },
    decreases rem(data, st), tok_rank(st.cur),
{
    if is_unq_char(st.cur) {
        lemma_sadv_progress(data, st);
        match s_advance(data, st) {
            Ok(st1) => lemma_s_unqtext_progress(data, st1),
            Err(_) => (),
        }
    } else if st.cur is Whitespace {
        lemma_sadv_progress(data, st);
    }
}

pub proof fn lemma_s_text_progress(data: Seq<u8>, st: PState)
    ensures
        s_text(data, st) matches Ok((txt, st2)) ==> {
            &&& m_le(data, st2, st)
            &&& (is_unq_char(st.cur) || st.cur == ReadChar::Normal('"')) ==> m_lt(data, st2, st)
            &&& st2.pos >= st.pos
            &&& st2.pos <= data.len() || st2.pos == st.pos
        },
{
    if st.cur == ReadChar::Normal('"') {
        lemma_sadv_progress(data, st);
        match s_advance(data, st) {
            Ok(st1) => lemma_s_qtext_progress(data, st1),
            Err(_) => (),
        }
    } else {
        lemma_s_unqtext_progress(data, st);
    }
}

pub proof fn lemma_s_flagname_progress(data: Seq<u8>, st: PState)
    ensures
        s_flagname(data, st) matches Ok((txt, st2)) ==> m_le(data, st2, st) && st2.pos >= st.pos
            && (st2.pos <= data.len() || st2.pos == st.pos),
    decreases rem(data, st), tok_rank(st.cur),
{
    if st.cur == ReadChar::Normal(']') {
        lemma_sadv_ws_progress(data, st);
    } else if st.cur is Eof || st.cur is Whitespace {
    } else {
        lemma_sadv_progress(data, st);
        match s_advance(data, st) {
            Ok(st1) => lemma_s_flagname_progress(data, st1),
            Err(_) => (),
        }
    }
}

pub proof fn lemma_s_flag_progress(data: Seq<u8>, st: PState)
    ensures
        s_flag(data, st) matches Ok((f, st2)) ==> m_le(data, st2, st) && st2.pos >= st.pos && (
        st2.pos <= data.len() || st2.pos == st.pos),
{
    if st.cur == ReadChar::Normal('[') {
        lemma_sadv_ws_progress(data, st);
        match s_advance_ws(data, st) {
            Ok(st1) => {
                if st1.cur == ReadChar::Normal('!') {
                    lemma_sadv_ws_progress(data, st1);
                    match s_advance_ws(data, st1) {
                        Ok(st2) => lemma_s_flagname_progress(data, st2),
                        Err(_) => (),
                    }
                } else {
                    lemma_s_flagname_progress(data, st1);
                }
            },
            Err(_) => (),
        }
    }
}

pub proof fn lemma_s_value_progress(data: Seq<u8>, st: PState)
    ensures
        s_value(data, st) matches Ok((v, st1)) ==> m_lt(data, st1, st) && st1.pos >= st.pos && (
        st1.pos <= data.len() || st1.pos == st.pos),
    decreases rem(data, st), tok_rank(st.cur), 1int,
{
    if st.cur == ReadChar::Normal('{') {
        lemma_sadv_ws_progress(data, st);
        match s_advance_ws(data, st) {
            Ok(st1) => {
                lemma_s_object_progress(data, st1);
                match s_object(data, st1) {
                    Ok((entries, st2)) => lemma_sadv_ws_progress(data, st2),
                    Err(_) => (),
                }
            },
            Err(_) => (),
        }
    } else if is_unq_char(st.cur) || st.cur == ReadChar::Normal('"') {
        lemma_s_text_progress(data, st);
    }
}

pub proof fn lemma_s_object_progress(data: Seq<u8>, st: PState)
    ensures
        s_object(data, st) matches Ok((entries, st4)) ==> {
            &&& m_le(data, st4, st)
            &&& st4.cur is Eof || st4.cur == ReadChar::Normal('}')
            &&& st4.pos >= st.pos
            &&& st4.pos <= data.len() || st4.pos == st.pos
        },
    decreases rem(data, st), tok_rank(st.cur), 0int,
{
    if st.cur is Eof || st.cur == ReadChar::Normal('}') {
    } else if !(is_unq_char(st.cur) || st.cur == ReadChar::Normal('"')) {
    } else {
        lemma_s_text_progress(data, st);
        match s_text(data, st) {
            Ok((key, st1)) => {
                lemma_s_value_progress(data, st1);
                match s_value(data, st1) {
                    Ok((val, st2)) => {
                        lemma_s_flag_progress(data, st2);
                        match s_flag(data, st2) {
                            Ok((flag, st3)) => {
                                assert(m_lt(data, st3, st));
                                lemma_s_object_progress(data, st3);
                            },
                            Err(_) => (),
                        }
                    },
                    Err(_) => (),
                }
            },
            Err(_) => (),
        }
    }
}


// ---------------------------------------------------------------------------
// Executable parsing.
// ---------------------------------------------------------------------------

/// Joins text already read to the result of reading the rest.
pub open spec fn prepend_text(pre: Seq<char>, r: Result<(Seq<char>, PState), ReaderError>) -> Result<
    (Seq<char>, PState),
    ReaderError,
> {
    match r {
        Ok((txt, st)) => Ok((pre + txt, st)),
        Err(e) => Err(e),
    }
}

impl KeyValues {
    /// The model of the whole parsed document: the root object's entries.
    pub closed spec fn model(&self) -> Seq<EntryM> {
        obj_model(&self.root)
    }

    fn is_unquoted_text_char(data: &ReadChar) -> (r: bool)
        ensures
            r == is_unq_char(*data),
    {
        match data {
            ReadChar::Normal(c_data) => {
                let c = *c_data;
                !(c == '{' || c == '}' || c == '[' || c == ']' || c == '!' || c == '"') && !(c
                    == ' ' || c == '\t' || c == '\n' || c == '\u{0b}' || c == '\u{0c}' || c
                    == '\r' || c == '\u{85}' || c == '\u{a0}')
            },
            ReadChar::Escaped(_) => true,
            _ => false,
        }
    }

    fn advance(char_reader: &mut CharReader) -> (r: Result<(), ReaderError>)
        requires
            old(char_reader).wf(),
        ensures
            final(char_reader).wf(),
            final(char_reader).bytes() == old(char_reader).bytes(),
            match s_advance(old(char_reader).bytes(), st_of(old(char_reader))) {
                Ok(st) => r is Ok && st_of(final(char_reader)) == st,
                Err(e) => r matches Err(e2) && e2 == e,
            },
    {
        match char_reader.advance() {
            Ok(u) => Ok(u),
            Err(e) => Err(ReaderError::Char(e)),
        }
    }

    fn advance_whitespace(char_reader: &mut CharReader) -> (r: Result<(), ReaderError>)
        requires
            old(char_reader).wf(),
        ensures
            final(char_reader).wf(),
            final(char_reader).bytes() == old(char_reader).bytes(),
            match s_advance_ws(old(char_reader).bytes(), st_of(old(char_reader))) {
                Ok(st) => r is Ok && st_of(final(char_reader)) == st,
                Err(e) => r matches Err(e2) && e2 == e,
            },
    {
        Self::advance(char_reader)?;
        if char_reader.peek().is_whitespace() {
            Self::advance(char_reader)?;
        }
        Ok(())
    }

    fn visit_open(char_reader: &mut CharReader) -> (r: Result<(), ReaderError>)
        requires
            old(char_reader).wf(),
            st_of(old(char_reader)).cur == ReadChar::Normal('{'),
        ensures
            final(char_reader).wf(),
            final(char_reader).bytes() == old(char_reader).bytes(),
            match s_advance_ws(old(char_reader).bytes(), st_of(old(char_reader))) {
                Ok(st) => r is Ok && st_of(final(char_reader)) == st,
                Err(e) => r matches Err(e2) && e2 == e,
            },
    {
        Self::advance_whitespace(char_reader)
    }

    fn visit_close(char_reader: &mut CharReader) -> (r: Result<(), ReaderError>)
        requires
            old(char_reader).wf(),
            st_of(old(char_reader)).cur == ReadChar::Normal('}'),
        ensures
            final(char_reader).wf(),
            final(char_reader).bytes() == old(char_reader).bytes(),
            match s_advance_ws(old(char_reader).bytes(), st_of(old(char_reader))) {
                Ok(st) => r is Ok && st_of(final(char_reader)) == st,
                Err(e) => r matches Err(e2) && e2 == e,
            },
    {
        Self::advance_whitespace(char_reader)
    }

    fn visit_text_quoted(char_reader: &mut CharReader) -> (r: Result<String, ReaderError>)
        requires
            old(char_reader).wf(),
            st_of(old(char_reader)).cur == ReadChar::Normal('"'),
        ensures
            final(char_reader).wf(),
            final(char_reader).bytes() == old(char_reader).bytes(),
            match s_text_quoted(old(char_reader).bytes(), st_of(old(char_reader))) {
                Ok((txt, st)) => r matches Ok(s) && s@ == txt && st_of(final(char_reader)) == st,
                Err(e) => r matches Err(e2) && e2 == e,
            },
    {
        Self::advance(char_reader)?;
        let mut read_string = empty_string();
        loop
            invariant
                char_reader.wf(),
                char_reader.bytes() == old(char_reader).bytes(),
                prepend_text(
                    read_string@,
                    s_qtext(char_reader.bytes(), st_of(char_reader)),
                ) == s_text_quoted(old(char_reader).bytes(), st_of(old(char_reader))),
            decreases
                    rem(char_reader.bytes(), st_of(char_reader)),
                    tok_rank(st_of(char_reader).cur),
        {
            let ghost st_i = st_of(char_reader);
            let ghost bytes = char_reader.bytes();
            let pk = char_reader.peek();
            if pk == ReadChar::Normal('"') {
                Self::advance_whitespace(char_reader)?;
                proof {
                    assert(read_string@ + Seq::<char>::empty() =~= read_string@);
                }
                return Ok(read_string);
            }
            match pk {
                ReadChar::Eof => {
                    return Err(ReaderError::UnexpectedEof);
                },
                ReadChar::Whitespace => {
                    return Err(ReaderError::InvalidChar(ReadChar::Whitespace));
                },
                _ => {},
            }
            let c = pk.unwrap_char();
            let ghost rs_old = read_string@;
            push_char(&mut read_string, c);
            proof {
                lemma_sadv_progress(bytes, st_i);
            }
            Self::advance(char_reader)?;
            proof {
                match s_qtext(bytes, st_of(char_reader)) {
                    Ok((txt, st2)) => {
                        assert(rs_old.push(c) + txt =~= rs_old + (seq![c] + txt));
                    },
                    Err(_) => {},
                }
            }
        }
    }

    fn visit_text_unquoted(char_reader: &mut CharReader) -> (r: Result<String, ReaderError>)
        requires
            old(char_reader).wf(),
        ensures
            final(char_reader).wf(),
            final(char_reader).bytes() == old(char_reader).bytes(),
            match s_unqtext(old(char_reader).bytes(), st_of(old(char_reader))) {
                Ok((txt, st)) => r matches Ok(s) && s@ == txt && st_of(final(char_reader)) == st,
                Err(e) => r matches Err(e2) && e2 == e,
            },
    {
        let mut read_string = empty_string();
        loop
            invariant
                char_reader.wf(),
                char_reader.bytes() == old(char_reader).bytes(),
                prepend_text(
                    read_string@,
                    s_unqtext(char_reader.bytes(), st_of(char_reader)),
                ) == s_unqtext(old(char_reader).bytes(), st_of(old(char_reader))),
            decreases
                    rem(char_reader.bytes(), st_of(char_reader)),
                    tok_rank(st_of(char_reader).cur),
        {
            let ghost st_i = st_of(char_reader);
            let ghost bytes = char_reader.bytes();
            let pk = char_reader.peek();
            if Self::is_unquoted_text_char(&pk) {
                let c = pk.unwrap_char();
                let ghost rs_old = read_string@;
                push_char(&mut read_string, c);
                proof {
                    lemma_sadv_progress(bytes, st_i);
                }
                Self::advance(char_reader)?;
                proof {
                    match s_unqtext(bytes, st_of(char_reader)) {
                        Ok((txt, st2)) => {
                            assert(rs_old.push(c) + txt =~= rs_old + (seq![c] + txt));
                        },
                        Err(_) => {},
                    }
                }
            } else {
                if pk.is_whitespace() {
                    Self::advance(char_reader)?;
                }
                proof {
                    assert(read_string@ + Seq::<char>::empty() =~= read_string@);
                }
                return Ok(read_string);
            }
        }
    }

    fn visit_text(char_reader: &mut CharReader) -> (r: Result<String, ReaderError>)
        requires
            old(char_reader).wf(),
        ensures
            final(char_reader).wf(),
            final(char_reader).bytes() == old(char_reader).bytes(),
            match s_text(old(char_reader).bytes(), st_of(old(char_reader))) {
                Ok((txt, st)) => r matches Ok(s) && s@ == txt && st_of(final(char_reader)) == st,
                Err(e) => r matches Err(e2) && e2 == e,
            },
    {
        if char_reader.peek() == ReadChar::Normal('"') {
            Self::visit_text_quoted(char_reader)
        } else {
            Self::visit_text_unquoted(char_reader)
        }
    }
}


/// Joins entries already read to the result of reading the rest of an object.
pub open spec fn prepend_obj(
    pre: Seq<EntryM>,
    r: Result<(Seq<EntryM>, PState), ReaderError>,
) -> Result<(Seq<EntryM>, PState), ReaderError> {
    match r {
        Ok((es, st)) => Ok((pre + es, st)),
        Err(e) => Err(e),
    }
}

proof fn lemma_entries_model_push(es: Seq<Entry>, e: Entry)
    ensures
        entries_model(es.push(e)) == entries_model(es) + seq![
            EntryM { key: e.key@, flag: flag_model(&e.flag), value: value_model(&e.value) },
        ],
    decreases es.len(),
{
    let em = EntryM { key: e.key@, flag: flag_model(&e.flag), value: value_model(&e.value) };
    if es.len() == 0 {
        assert(es.push(e)[0] == e);
        assert(es.push(e).subrange(1, 1) =~= Seq::<Entry>::empty());
        assert(entries_model(Seq::<Entry>::empty()) =~= Seq::<EntryM>::empty());
        assert(entries_model(es.push(e)) =~= seq![em]);
        assert(entries_model(es) + seq![em] =~= seq![em]);
    } else {
        let tail = es.subrange(1, es.len() as int);
        assert(es.push(e).subrange(1, es.len() as int + 1) =~= tail.push(e));
        lemma_entries_model_push(tail, e);
        let em0 = EntryM {
            key: es[0].key@,
            flag: flag_model(&es[0].flag),
            value: value_model(&es[0].value),
        };
        assert(es.push(e)[0] == es[0]);
        assert(entries_model(es.push(e)) == seq![em0] + (entries_model(tail) + seq![em]));
        assert(seq![em0] + (entries_model(tail) + seq![em]) =~= (seq![em0] + entries_model(
            tail,
        )) + seq![em]);
    }
}

impl KeyValues {
    fn visit_flag(char_reader: &mut CharReader) -> (r: Result<Flag, ReaderError>)
        requires
            old(char_reader).wf(),
        ensures
            final(char_reader).wf(),
            final(char_reader).bytes() == old(char_reader).bytes(),
            match s_flag(old(char_reader).bytes(), st_of(old(char_reader))) {
                Ok((f, st)) => r matches Ok(fl) && flag_model(&fl) == f && st_of(
                    final(char_reader),
                ) == st,
                Err(e) => r matches Err(e2) && e2 == e,
            },
    {
        let ghost bytes = old(char_reader).bytes();
        let ghost st0 = st_of(old(char_reader));
        if !(char_reader.peek() == ReadChar::Normal('[')) {
            return Ok(Flag::Absent);
        }
        Self::advance_whitespace(char_reader)?;
        let is_negated = char_reader.peek() == ReadChar::Normal('!');
        if is_negated {
            Self::advance_whitespace(char_reader)?;
        }
        let ghost st_name = st_of(char_reader);
        let mut read_string = empty_string();
        loop
            invariant
                bytes == old(char_reader).bytes(),
                st0 == st_of(old(char_reader)),
                char_reader.wf(),
                char_reader.bytes() == bytes,
                match s_flagname(bytes, st_name) {
                    Ok((name, stf)) => s_flag(bytes, st0) == Ok::<(FlagM, PState), ReaderError>(
                        (
                            if is_negated {
                                FlagM::Negated(name)
                            } else {
                                FlagM::Normal(name)
                            },
                            stf,
                        ),
                    ),
                    Err(e) => s_flag(bytes, st0) == Err::<(FlagM, PState), ReaderError>(e),
                },
                prepend_text(read_string@, s_flagname(bytes, st_of(char_reader))) == s_flagname(
                    bytes,
                    st_name,
                ),
            decreases rem(bytes, st_of(char_reader)), tok_rank(st_of(char_reader).cur),
        {
            let ghost st_i = st_of(char_reader);
            let pk = char_reader.peek();
            if pk == ReadChar::Normal(']') {
                Self::advance_whitespace(char_reader)?;
                proof {
                    assert(read_string@ + Seq::<char>::empty() =~= read_string@);
                }
                if is_negated {
                    return Ok(Flag::Negated(read_string));
                } else {
                    return Ok(Flag::Normal(read_string));
                }
            }
            match pk {
                ReadChar::Eof => {
                    return Err(ReaderError::UnexpectedEof);
                },
                ReadChar::Whitespace => {
                    return Err(ReaderError::InvalidChar(ReadChar::Whitespace));
                },
                _ => {},
            }
            let c = pk.unwrap_char();
            let ghost rs_old = read_string@;
            push_char(&mut read_string, c);
            proof {
                lemma_sadv_progress(bytes, st_i);
            }
            Self::advance(char_reader)?;
            proof {
                match s_flagname(bytes, st_of(char_reader)) {
                    Ok((txt, st2)) => {
                        assert(rs_old.push(c) + txt =~= rs_old + (seq![c] + txt));
                    },
                    Err(_) => {},
                }
            }
        }
    }

    fn visit_value(char_reader: &mut CharReader) -> (r: Result<Value, ReaderError>)
        requires
            old(char_reader).wf(),
        ensures
            final(char_reader).wf(),
            final(char_reader).bytes() == old(char_reader).bytes(),
            match s_value(old(char_reader).bytes(), st_of(old(char_reader))) {
                Ok((v, st)) => r matches Ok(val) && value_model(&val) == v && st_of(
                    final(char_reader),
                ) == st,
                Err(e) => r matches Err(e2) && e2 == e,
            },
        decreases
                rem(old(char_reader).bytes(), st_of(old(char_reader))),
                tok_rank(st_of(old(char_reader)).cur),
                1int,
    {
        let ghost bytes = old(char_reader).bytes();
        let ghost st0 = st_of(old(char_reader));
        let pk = char_reader.peek();
        if pk == ReadChar::Normal('{') {
            proof {
                lemma_sadv_ws_progress(bytes, st0);
            }
            Self::visit_open(char_reader)?;
            let object = Self::visit_object(char_reader)?;
            let pk2 = char_reader.peek();
            if pk2 == ReadChar::Normal('}') {
                Self::visit_close(char_reader)?;
                Ok(Value::Object(object))
            } else {
                Err(ReaderError::UnexpectedEof)
            }
        } else if Self::is_unquoted_text_char(&pk) || pk == ReadChar::Normal('"') {
            let text = Self::visit_text(char_reader)?;
            Ok(Value::String(text))
        } else {
            Err(ReaderError::InvalidChar(pk))
        }
    }

    fn visit_object(char_reader: &mut CharReader) -> (r: Result<Object, ReaderError>)
        requires
            old(char_reader).wf(),
        ensures
            final(char_reader).wf(),
            final(char_reader).bytes() == old(char_reader).bytes(),
            match s_object(old(char_reader).bytes(), st_of(old(char_reader))) {
                Ok((es, st)) => r matches Ok(o) && obj_model(&o) == es && st_of(
                    final(char_reader),
                ) == st,
                Err(e) => r matches Err(e2) && e2 == e,
            },
        decreases
                rem(old(char_reader).bytes(), st_of(old(char_reader))),
                tok_rank(st_of(old(char_reader)).cur),
                0int,
    {
        let ghost bytes = old(char_reader).bytes();
        let ghost st0 = st_of(old(char_reader));
        let mut entries: Vec<Entry> = Vec::new();
        proof {
            assert(entries_model(entries@) =~= Seq::<EntryM>::empty());
        }
        loop
            invariant
                bytes == old(char_reader).bytes(),
                st0 == st_of(old(char_reader)),
                char_reader.wf(),
                char_reader.bytes() == bytes,
                m_le(bytes, st_of(char_reader), st0),
                prepend_obj(entries_model(entries@), s_object(bytes, st_of(char_reader)))
                    == s_object(bytes, st0),
            decreases rem(bytes, st_of(char_reader)), tok_rank(st_of(char_reader).cur),
        {
            let ghost st_i = st_of(char_reader);
            let pk = char_reader.peek();
            if pk.is_eof() || pk == ReadChar::Normal('}') {
                proof {
                    assert(entries_model(entries@) + Seq::<EntryM>::empty() =~= entries_model(
                        entries@,
                    ));
                }
                return Ok(Object { entries });
            }
            if !(Self::is_unquoted_text_char(&pk) || pk == ReadChar::Normal('"')) {
                return Err(ReaderError::InvalidChar(pk));
            }
            proof {
                lemma_s_text_progress(bytes, st_i);
            }
            let key = Self::visit_text(char_reader)?;
            let ghost st1 = st_of(char_reader);
            proof {
                lemma_s_value_progress(bytes, st1);
            }
            let value = Self::visit_value(char_reader)?;
            let ghost st2 = st_of(char_reader);
            proof {
                lemma_s_flag_progress(bytes, st2);
            }
            let flag = Self::visit_flag(char_reader)?;
            let ghost st3 = st_of(char_reader);
            proof {
                assert(m_lt(bytes, st3, st_i));
            }
            let entry = Entry { key, flag, value };
            let ghost e = entry;
            let ghost es_old = entries@;
            entries.push(entry);
            proof {
                lemma_entries_model_push(es_old, e);
                let em = EntryM {
                    key: e.key@,
                    flag: flag_model(&e.flag),
                    value: value_model(&e.value),
                };
                match s_object(bytes, st3) {
                    Ok((rest, st4)) => {
                        assert(entries_model(es_old) + (seq![em] + rest) =~= (entries_model(es_old)
                            + seq![em]) + rest);
                    },
                    Err(_) => {},
                }
            }
        }
    }

    /// Parses a whole input into its root object.
    pub fn from_io(data: &[u8]) -> (r: Result<KeyValues, ReaderError>)
        ensures
            match spec_parse(data@) {
                Ok(es) => r matches Ok(kv) && kv.model() == es,
                Err(e) => r matches Err(e2) && e2 == e,
            },
    {
        let mut char_reader = match CharReader::from_io(data) {
            Ok(cr) => cr,
            Err(e) => {
                return Err(ReaderError::Char(e));
            },
        };
        let root = Self::visit_object(&mut char_reader)?;
        Ok(KeyValues { root })
    }
}


// ---------------------------------------------------------------------------
// Lookup.
// ---------------------------------------------------------------------------

/// The entry a key refers to: the last one with that key, if any.
pub open spec fn lookup(es: Seq<EntryM>, k: Seq<char>) -> Option<(FlagM, ValueM)>
    decreases es.len(),
{
    if es.len() == 0 {
        None
    } else if es.last().key == k {
        Some((es.last().flag, es.last().value))
    } else {
        lookup(es.drop_last(), k)
    }
}

/// The names of a list of flags, as a set.
pub open spec fn flag_names(flags: Seq<String>) -> Set<Seq<char>> {
    Set::new(|n: Seq<char>| exists|i: int| 0 <= i < flags.len() && flags[i]@ == n)
}

/// Whether an entry with the given flag is visible under a set of active
/// flag names: an unflagged entry always, a normal flag when its name is
/// active, a negated flag when its name is not.
pub open spec fn visible(f: FlagM, active: Set<Seq<char>>) -> bool {
    match f {
        FlagM::Absent => true,
        FlagM::Normal(n) => active.contains(n),
        FlagM::Negated(n) => !active.contains(n),
    }
}

proof fn lemma_entries_model_index(es: Seq<Entry>)
    ensures
        entries_model(es).len() == es.len(),
        forall|j: int|
            0 <= j < es.len() ==> entries_model(es)[j] == (EntryM {
                key: es[j].key@,
                flag: flag_model(&es[j].flag),
                value: value_model(&es[j].value),
            }),
    decreases es.len(),
{
    if es.len() > 0 {
        let tail = es.subrange(1, es.len() as int);
        lemma_entries_model_index(tail);
        assert(forall|j: int| 0 <= j < tail.len() ==> tail[j] == es[j + 1]);
    }
}

fn contains_name(flags: &Vec<String>, name: &str) -> (r: bool)
    ensures
        r == flag_names(flags@).contains(name@),
{
    let mut i: usize = 0;
    while i < flags.len()
        invariant
            i <= flags@.len(),
            forall|j: int| 0 <= j < i ==> flags@[j]@ != name@,
        decreases flags@.len() - i,
    {
        if str_eq(flags[i].as_str(), name) {
            assert(flag_names(flags@).contains(name@));
            return true;
        }
        i = i + 1;
    }
    assert(!flag_names(flags@).contains(name@));
    false
}

impl Object {
    fn find(&self, k: &str) -> (r: Option<&Entry>)
        ensures
            match lookup(obj_model(self), k@) {
                None => r is None,
                Some((f, v)) => r matches Some(e) && flag_model(&e.flag) == f && value_model(
                    &e.value,
                ) == v,
            },
    {
        proof {
            lemma_entries_model_index(self.entries@);
        }
        let ghost em = obj_model(self);
        let mut i: usize = self.entries.len();
        proof {
            assert(em.subrange(0, i as int) =~= em);
        }
        while i > 0
            invariant
                em == obj_model(self),
                entries_model(self.entries@) == em,
                em.len() == self.entries@.len(),
                forall|j: int|
                    0 <= j < em.len() ==> em[j] == (EntryM {
                        key: self.entries@[j].key@,
                        flag: flag_model(&self.entries@[j].flag),
                        value: value_model(&self.entries@[j].value),
                    }),
                i <= em.len(),
                lookup(em, k@) == lookup(em.subrange(0, i as int), k@),
            decreases i,
        {
            i = i - 1;
            let ghost pre = em.subrange(0, i as int + 1);
            proof {
                assert(pre.last() == em[i as int]);
                assert(pre.drop_last() =~= em.subrange(0, i as int));
            }
            if str_eq(self.entries[i].key.as_str(), k) {
                return Some(&self.entries[i]);
            }
        }
        proof {
            assert(em.subrange(0, 0).len() == 0);
        }
        None
    }

    /// The value stored under a key, whatever its flag: the last entry with
    /// that key wins.
    pub fn get(&self, k: &str) -> (r: Option<&Value>)
        ensures
            match lookup(obj_model(self), k@) {
                None => r is None,
                Some((f, v)) => r matches Some(val) && value_model(val) == v,
            },
    {
        match self.find(k) {
            None => None,
            Some(e) => Some(&e.value),
        }
    }

    /// The value stored under a key, if its flag makes it visible under the
    /// given active flag names.
    pub fn get_with_flags(&self, k: &str, flags: &Vec<String>) -> (r: Option<&Value>)
        ensures
            match lookup(obj_model(self), k@) {
                None => r is None,
                Some((f, v)) => if visible(f, flag_names(flags@)) {
                    r matches Some(val) && value_model(val) == v
                } else {
                    r is None
                },
            },
    {
        match self.find(k) {
            None => None,
            Some(e) => match &e.flag {
                Flag::Absent => Some(&e.value),
                Flag::Normal(name) => {
                    if contains_name(flags, name.as_str()) {
                        Some(&e.value)
                    } else {
                        None
                    }
                },
                Flag::Negated(name) => {
                    if !contains_name(flags, name.as_str()) {
                        Some(&e.value)
                    } else {
                        None
                    }
                },
            },
        }
    }
}

impl KeyValues {
    /// The value stored under a key in the root object.
    pub fn get(&self, k: &str) -> (r: Option<&Value>)
        ensures
            match lookup(self.model(), k@) {
                None => r is None,
                Some((f, v)) => r matches Some(val) && value_model(val) == v,
            },
    {
        self.root.get(k)
    }

    /// The value stored under a key in the root object, if its flag makes it
    /// visible under the given active flag names.
    pub fn get_with_flags(&self, k: &str, flags: &Vec<String>) -> (r: Option<&Value>)
        ensures
            match lookup(self.model(), k@) {
                None => r is None,
                Some((f, v)) => if visible(f, flag_names(flags@)) {
                    r matches Some(val) && value_model(val) == v
                } else {
                    r is None
                },
            },
    {
        self.root.get_with_flags(k, flags)
    }
}


// ---------------------------------------------------------------------------
// Writing a tree back out.
// ---------------------------------------------------------------------------

/// A text with every character written behind a backslash, so that nothing
/// in it is structural when read back.
pub open spec fn esc_bytes(s: Seq<char>) -> Seq<u8>
    decreases s.len(),
{
    if s.len() == 0 {
        Seq::empty()
    } else {
        seq![92u8, s[0] as u8] + esc_bytes(s.subrange(1, s.len() as int))
    }
}

/// A serialized text: the empty string as an empty quoted pair, anything
/// else escaped character by character; a space ends the token.
pub open spec fn ser_text(s: Seq<char>) -> Seq<u8> {
    if s.len() == 0 {
        seq![34u8, 34u8, 32u8]
    } else {
        esc_bytes(s) + seq![32u8]
    }
}

/// A serialized flag: nothing, `[name]` or `[!name]`, the name escaped.
pub open spec fn ser_flag(f: FlagM) -> Seq<u8> {
    match f {
        FlagM::Absent => Seq::empty(),
        FlagM::Normal(n) => seq![91u8] + esc_bytes(n) + seq![93u8, 32u8],
        FlagM::Negated(n) => seq![91u8, 33u8] + esc_bytes(n) + seq![93u8, 32u8],
    }
}

/// A serialized value: a text, or a brace-wrapped object.
pub open spec fn ser_value(v: ValueM) -> Seq<u8>
    decreases v,
{
    match v {
        ValueM::Text(s) => ser_text(s),
        ValueM::Obj(es) => seq![123u8, 32u8] + ser_entries(es) + seq![125u8, 32u8],
    }
}

/// A serialized entry list: key, value, flag, in input order.
pub open spec fn ser_entries(es: Seq<EntryM>) -> Seq<u8>
    decreases es,
{
    if es.len() == 0 {
        Seq::empty()
    } else {
        ser_text(es[0].key) + ser_value(es[0].value) + ser_flag(es[0].flag) + ser_entries(
            es.subrange(1, es.len() as int),
        )
    }
}

fn esc_bytes_exec(s: &String) -> (r: Vec<u8>)
    ensures
        r@ == esc_bytes(s@),
{
    let st = s.as_str();
    let n = st.unicode_len();
    let mut out: Vec<u8> = Vec::new();
    let mut i: usize = 0;
    proof {
        assert(s@.subrange(0, n as int) =~= s@);
        assert(Seq::<u8>::empty() + esc_bytes(s@) =~= esc_bytes(s@));
    }
    while i < n
        invariant
            i <= n,
            st@ == s@,
            n == s@.len(),
            esc_bytes(s@) == out@ + esc_bytes(s@.subrange(i as int, n as int)),
        decreases n - i,
    {
        let c = st.get_char(i);
        let ghost out_old = out@;
        let ghost suffix = s@.subrange(i as int, n as int);
        out.push(92);
        out.push(#[verifier::truncate] (c as u8));
        proof {
            assert(suffix[0] == s@[i as int]);
            assert(suffix.subrange(1, suffix.len() as int) =~= s@.subrange(i + 1, n as int));
            assert(out@ =~= out_old + seq![92u8, s@[i as int] as u8]);
            assert(out_old + (seq![92u8, s@[i as int] as u8] + esc_bytes(
                s@.subrange(i + 1, n as int),
            )) =~= out@ + esc_bytes(s@.subrange(i + 1, n as int)));
        }
        i = i + 1;
    }
    proof {
        assert(s@.subrange(n as int, n as int) =~= Seq::<char>::empty());
        assert(esc_bytes(Seq::<char>::empty()) =~= Seq::<u8>::empty());
        assert(out@ + Seq::<u8>::empty() =~= out@);
    }
    out
}

fn ser_text_exec(s: &String) -> (r: Vec<u8>)
    ensures
        r@ == ser_text(s@),
{
    if s.as_str().unicode_len() == 0 {
        let mut out: Vec<u8> = Vec::new();
        out.push(34);
        out.push(34);
        out.push(32);
        proof {
            assert(out@ =~= ser_text(s@));
        }
        out
    } else {
        let mut out = esc_bytes_exec(s);
        out.push(32);
        proof {
            assert(out@ =~= ser_text(s@));
        }
        out
    }
}

fn ser_flag_exec(f: &Flag) -> (r: Vec<u8>)
    ensures
        r@ == ser_flag(flag_model(f)),
{
    match f {
        Flag::Absent => {
            let out: Vec<u8> = Vec::new();
            proof {
                assert(out@ =~= ser_flag(flag_model(f)));
            }
            out
        },
        Flag::Normal(n) => {
            let mut out: Vec<u8> = Vec::new();
            out.push(91);
            let mut name = esc_bytes_exec(n);
            out.append(&mut name);
            out.push(93);
            out.push(32);
            proof {
                assert(out@ =~= ser_flag(flag_model(f)));
            }
            out
        },
        Flag::Negated(n) => {
            let mut out: Vec<u8> = Vec::new();
            out.push(91);
            out.push(33);
            let mut name = esc_bytes_exec(n);
            out.append(&mut name);
            out.push(93);
            out.push(32);
            proof {
                assert(out@ =~= ser_flag(flag_model(f)));
            }
            out
        },
    }
}

impl Value {
    fn write_kv(&self) -> (r: Vec<u8>)
        ensures
            r@ == ser_value(value_model(self)),
        decreases self, 0int,
    {
        match self {
            Value::String(s) => ser_text_exec(s),
            Value::Object(o) => {
                let mut out: Vec<u8> = Vec::new();
                out.push(123);
                out.push(32);
                let mut inner = o.write_kv_entries(0);
                out.append(&mut inner);
                out.push(125);
                out.push(32);
                proof {
                    assert(obj_model(o).subrange(0, obj_model(o).len() as int) =~= obj_model(o));
                    assert(out@ =~= ser_value(value_model(self)));
                }
                out
            },
        }
    }
}

impl Object {
    fn write_kv_entries(&self, i: usize) -> (r: Vec<u8>)
        requires
            i <= self.entries@.len(),
        ensures
            r@ == ser_entries(
                obj_model(self).subrange(i as int, obj_model(self).len() as int),
            ),
        decreases self, 1int, self.entries@.len() - i,
    {
        proof {
            lemma_entries_model_index(self.entries@);
        }
        let ghost em = obj_model(self);
        if i >= self.entries.len() {
            let out: Vec<u8> = Vec::new();
            proof {
                assert(em.subrange(i as int, em.len() as int).len() == 0);
                assert(out@ =~= ser_entries(em.subrange(i as int, em.len() as int)));
            }
            return out;
        }
        let e = &self.entries[i];
        let mut out = ser_text_exec(&e.key);
        let mut vb = e.value.write_kv();
        out.append(&mut vb);
        let mut fb = ser_flag_exec(&e.flag);
        out.append(&mut fb);
        let mut rest = self.write_kv_entries(i + 1);
        out.append(&mut rest);
        proof {
            let suffix = em.subrange(i as int, em.len() as int);
            assert(suffix[0] == em[i as int]);
            assert(suffix.subrange(1, suffix.len() as int) =~= em.subrange(
                i + 1,
                em.len() as int,
            ));
            assert(out@ =~= ser_entries(suffix));
        }
        out
    }

    /// The object written back in the textual grammar, as bytes that parse
    /// to the same entries.
    pub fn to_kv_text(&self) -> (r: Vec<u8>)
        ensures
            r@ == ser_entries(obj_model(self)),
    {
        let out = self.write_kv_entries(0);
        proof {
            assert(obj_model(self).subrange(0, obj_model(self).len() as int) =~= obj_model(self));
        }
        out
    }
}

impl KeyValues {
    /// The document written back in the textual grammar, as bytes that parse
    /// to the same entries.
    pub fn to_kv_text(&self) -> (r: Vec<u8>)
        ensures
            r@ == ser_entries(self.model()),
    {
        self.root.to_kv_text()
    }
}


// ---------------------------------------------------------------------------
// Laws of lookup and parsing.
// ---------------------------------------------------------------------------

/// The map from key to flagged value that an entry list denotes: a later
/// entry for a key silently overwrites an earlier one.
pub open spec fn map_of(es: Seq<EntryM>) -> Map<Seq<char>, (FlagM, ValueM)>
    decreases es.len(),
{
    if es.len() == 0 {
        Map::empty()
    } else {
        map_of(es.drop_last()).insert(es.last().key, (es.last().flag, es.last().value))
    }
}

/// Law: lookup returns exactly what the denoted map holds under the key,
/// and nothing when the map has no such key.
pub proof fn lemma_lookup_is_map(es: Seq<EntryM>, k: Seq<char>)
    ensures
        lookup(es, k) == if map_of(es).contains_key(k) {
            Some(map_of(es)[k])
        } else {
            None::<(FlagM, ValueM)>
        },
    decreases es.len(),
{
    if es.len() > 0 {
        lemma_lookup_is_map(es.drop_last(), k);
    }
}

/// Law: parsing is deterministic: one input has one parse, so any two
/// successful parses of the same bytes carry the same entries.
pub proof fn lemma_parse_deterministic(data: Seq<u8>, r1: Seq<EntryM>, r2: Seq<EntryM>)
    requires
        spec_parse(data) == Ok::<Seq<EntryM>, ReaderError>(r1),
        spec_parse(data) == Ok::<Seq<EntryM>, ReaderError>(r2),
    ensures
        r1 == r2,
{
}

/// Law: key lookup is order-independent: two entry lists that denote the
/// same map answer every lookup alike, wherever their entries stand.
pub proof fn lemma_lookup_order_independent(es1: Seq<EntryM>, es2: Seq<EntryM>, k: Seq<char>)
    requires
        map_of(es1) == map_of(es2),
    ensures
        lookup(es1, k) == lookup(es2, k),
{
    lemma_lookup_is_map(es1, k);
    lemma_lookup_is_map(es2, k);
}

/// All keys of an entry list pairwise distinct.
pub open spec fn distinct_keys(es: Seq<EntryM>) -> bool {
    forall|i: int, j: int| 0 <= i < j < es.len() ==> es[i].key != es[j].key
}

proof fn lemma_lookup_at_key(es: Seq<EntryM>, k: Seq<char>, i: int)
    requires
        distinct_keys(es),
        0 <= i < es.len(),
        es[i].key == k,
    ensures
        lookup(es, k) == Some((es[i].flag, es[i].value)),
    decreases es.len(),
{
    if i < es.len() - 1 {
        assert(es.last().key != k);
        let pre = es.drop_last();
        assert(forall|i2: int| 0 <= i2 < pre.len() ==> pre[i2] == es[i2]);
        lemma_lookup_at_key(pre, k, i);
    }
}

proof fn lemma_lookup_no_key(es: Seq<EntryM>, k: Seq<char>)
    requires
        forall|i: int| 0 <= i < es.len() ==> es[i].key != k,
    ensures
        lookup(es, k) is None,
    decreases es.len(),
{
    if es.len() > 0 {
        let pre = es.drop_last();
        assert(forall|i2: int| 0 <= i2 < pre.len() ==> pre[i2] == es[i2]);
        lemma_lookup_no_key(pre, k);
    }
}

/// Law: parsing is order-independent with respect to key lookup.  Two
/// well-formed inputs whose parses carry the same entries, merely in a
/// different order, and whose keys are pairwise distinct, answer every
/// lookup alike.
pub proof fn lemma_parse_order_independent(
    a: Seq<u8>,
    b: Seq<u8>,
    ea: Seq<EntryM>,
    eb: Seq<EntryM>,
    k: Seq<char>,
)
    requires
        spec_parse(a) == Ok::<Seq<EntryM>, ReaderError>(ea),
        spec_parse(b) == Ok::<Seq<EntryM>, ReaderError>(eb),
        ea.to_multiset() == eb.to_multiset(),
        distinct_keys(ea),
        distinct_keys(eb),
    ensures
        lookup(ea, k) == lookup(eb, k),
{
    broadcast use vstd::seq_lib::group_to_multiset_ensures;

    if exists|i: int| 0 <= i < ea.len() && ea[i].key == k {
        let i = choose|i: int| 0 <= i < ea.len() && ea[i].key == k;
        let e = ea[i];
        assert(ea.contains(e));
        assert(eb.to_multiset().count(e) > 0);
        assert(eb.contains(e));
        let j = choose|j: int| 0 <= j < eb.len() && eb[j] == e;
        lemma_lookup_at_key(ea, k, i);
        lemma_lookup_at_key(eb, k, j);
    } else {
        assert(forall|j: int| 0 <= j < eb.len() ==> eb[j].key != k) by {
            if exists|j: int| 0 <= j < eb.len() && eb[j].key == k {
                let j = choose|j: int| 0 <= j < eb.len() && eb[j].key == k;
                let e = eb[j];
                assert(eb.contains(e));
                assert(ea.to_multiset().count(e) > 0);
                assert(ea.contains(e));
                let i = choose|i: int| 0 <= i < ea.len() && ea[i] == e;
                assert(ea[i].key == k);
            }
        }
        lemma_lookup_no_key(ea, k);
        lemma_lookup_no_key(eb, k);
    }
}

} // verus!
