//! The round-trip law: writing a tree out in the textual grammar and parsing
//! the result yields the tree back, entry for entry.  It holds of every tree
//! whose text can be written as bytes, that is, whose characters all lie
//! below 256.

use vstd::prelude::*;

use crate::kv::char_reader::{advance_until, step, ReadChar};
use crate::kv::char_reader::tok_rank;
use crate::kv::reader::{
    esc_bytes, is_unq_char, lemma_s_flag_progress, lemma_s_text_progress, lemma_s_value_progress,
    lemma_sadv_progress, lemma_sadv_ws_progress, m_lt, rem, s_advance, s_advance_ws, s_flag,
    s_flagname, s_object, s_qtext, s_text, s_text_quoted, s_unqtext, s_value, ser_entries,
    ser_flag, ser_text, ser_value, spec_parse, st_wf, EntryM, FlagM, PState, ReaderError, ValueM,
};

verus! {

/// Every character small enough to be written as one byte.
pub open spec fn text_ok(s: Seq<char>) -> bool {
    forall|i: int| 0 <= i < s.len() ==> (s[i] as u32) < 256
}

pub open spec fn flag_ok(f: FlagM) -> bool {
    match f {
        FlagM::Absent => true,
        FlagM::Normal(n) => text_ok(n),
        FlagM::Negated(n) => text_ok(n),
    }
}

pub open spec fn value_ok(v: ValueM) -> bool
    decreases v,
{
    match v {
        ValueM::Text(s) => text_ok(s),
        ValueM::Obj(es) => entries_ok(es),
    }
}

/// Every text in the tree byte-representable.
pub open spec fn entries_ok(es: Seq<EntryM>) -> bool
    decreases es,
{
    if es.len() == 0 {
        true
    } else {
        text_ok(es[0].key) && value_ok(es[0].value) && flag_ok(es[0].flag) && entries_ok(
            es.subrange(1, es.len() as int),
        )
    }
}

/// The classification reached from raw byte position `e` outside quotes,
/// with whitespace and comments absorbed: where a parser production stands
/// when its boundary is at `e`.
pub open spec fn focus(data: Seq<u8>, e: int) -> Option<(ReadChar, int, bool)> {
    advance_until(data, e, false)
}

/// The parser state at a focused boundary.
pub open spec fn fst(data: Seq<u8>, e: int) -> PState {
    let (c, p, q) = focus(data, e)->Some_0;
    PState { pos: p, quoted: q, cur: c }
}

/// A character below 256 survives the trip through one byte.
proof fn lemma_char_byte_roundtrip(c: char)
    requires
        (c as u32) < 256,
    ensures
        ((c as u8) as char) == c,
{
    assert((c as int) < 256);
    assert(((c as u8) as int) == (c as int));
}

proof fn lemma_esc_bytes_len(s: Seq<char>)
    ensures
        esc_bytes(s).len() == 2 * s.len(),
    decreases s.len(),
{
    if s.len() > 0 {
        lemma_esc_bytes_len(s.subrange(1, s.len() as int));
    }
}

/// Reading an escaped run as unquoted text: each pair yields its character,
/// and the single space after the run moves the boundary past itself.
proof fn lemma_unq_run(data: Seq<u8>, k: int, s: Seq<char>)
    requires
        text_ok(s),
        s.len() > 0,
        0 <= k,
        k + 2 * s.len() + 1 <= data.len(),
        data.subrange(k, k + 2 * s.len()) == esc_bytes(s),
        data[k + 2 * s.len()] == 32,
        focus(data, k + 2 * s.len() + 1) is Some,
    ensures
        focus(data, k) == Some((ReadChar::Escaped(s[0]), k + 2, false)),
        s_unqtext(data, PState { pos: k + 2, quoted: false, cur: ReadChar::Escaped(s[0]) })
            == Ok::<(Seq<char>, PState), ReaderError>((s, fst(data, k + 2 * s.len() + 1))),
    decreases s.len(),
{
    lemma_esc_bytes_len(s);
    let e = esc_bytes(s);
    assert((s[0] as u32) < 256);
    lemma_char_byte_roundtrip(s[0]);
    assert(e[0] == 92u8 && e[1] == s[0] as u8);
    assert(data[k] == 92 && data[k + 1] == s[0] as u8);
    assert(step(data, k, false) == Some((ReadChar::Escaped(s[0]), k + 2, false)));
    assert(focus(data, k) == Some((ReadChar::Escaped(s[0]), k + 2, false)));
    let st = PState { pos: k + 2, quoted: false, cur: ReadChar::Escaped(s[0]) };
    assert(is_unq_char(st.cur));
    if s.len() == 1 {
        // the space follows directly
        assert(data[k + 2] == 32);
        assert(step(data, k + 2, false) == Some((ReadChar::Whitespace, k + 3, false)));
        let st1 = PState { pos: k + 3, quoted: false, cur: ReadChar::Whitespace };
        assert(s_advance(data, st) == Ok::<PState, ReaderError>(st1));
        assert(s_advance(data, st1) == match focus(data, k + 3) {
            Some((c, p, q)) => Ok::<PState, ReaderError>(PState { pos: p, quoted: q, cur: c }),
            None => Err(crate::kv::reader::char_err(data)),
        });
        assert(s_unqtext(data, st1) == Ok::<(Seq<char>, PState), ReaderError>(
            (Seq::empty(), fst(data, k + 3)),
        ));
        assert(seq![s[0]] + Seq::<char>::empty() =~= s);
    } else {
        let tail = s.subrange(1, s.len() as int);
        lemma_esc_bytes_len(tail);
        assert(esc_bytes(s) == seq![92u8, s[0] as u8] + esc_bytes(tail));
        assert(data.subrange(k + 2, k + 2 + 2 * tail.len()) =~= esc_bytes(tail)) by {
            assert(forall|i: int|
                0 <= i < 2 * tail.len() ==> data.subrange(k + 2, k + 2 + 2 * tail.len())[i]
                    == data[k + 2 + i] && data[k + 2 + i] == esc_bytes(s)[2 + i] && esc_bytes(
                    s,
                )[2 + i] == esc_bytes(tail)[i]);
        }
        assert(data[k + 2 + 2 * tail.len()] == 32);
        assert(forall|i: int| 0 <= i < tail.len() ==> tail[i] == s[i + 1]);
        lemma_unq_run(data, k + 2, tail);
        // one step from the current pair reaches the next pair
        assert((tail[0] as u32) < 256);
        lemma_char_byte_roundtrip(tail[0]);
        assert(esc_bytes(tail)[0] == 92u8 && esc_bytes(tail)[1] == tail[0] as u8);
        assert(data.subrange(k + 2, k + 2 + 2 * tail.len())[0] == data[k + 2]);
        assert(data.subrange(k + 2, k + 2 + 2 * tail.len())[1] == data[k + 3]);
        assert(data[k + 2] == 92 && data[k + 3] == tail[0] as u8);
        assert(step(data, k + 2, false) == Some((ReadChar::Escaped(tail[0]), k + 4, false)));
        assert(s_advance(data, st) == Ok::<PState, ReaderError>(
            PState { pos: k + 4, quoted: false, cur: ReadChar::Escaped(tail[0]) },
        ));
        assert(seq![s[0]] + tail =~= s);
    }
}


/// Splits an aligned concatenation into its two halves.
proof fn lemma_split(data: Seq<u8>, k: int, a: Seq<u8>, b: Seq<u8>)
    requires
        0 <= k,
        k + a.len() + b.len() <= data.len(),
        data.subrange(k, k + a.len() + b.len()) == a + b,
    ensures
        data.subrange(k, k + a.len()) == a,
        data.subrange(k + a.len(), k + a.len() + b.len()) == b,
{
    let whole = data.subrange(k, k + a.len() + b.len());
    assert(data.subrange(k, k + a.len()) =~= a) by {
        assert(forall|i: int|
            0 <= i < a.len() ==> data.subrange(k, k + a.len())[i] == whole[i] && whole[i] == (a
                + b)[i]);
    }
    assert(data.subrange(k + a.len(), k + a.len() + b.len()) =~= b) by {
        assert(forall|i: int|
            0 <= i < b.len() ==> #[trigger] data.subrange(k + a.len(), k + a.len() + b.len())[i]
                == whole[a.len() + i] && whole[a.len() + i] == (a + b)[a.len() + i]);
    }
}

/// The classification at a plain structural byte.
proof fn lemma_focus_at_plain(data: Seq<u8>, p: int)
    requires
        0 <= p < data.len(),
        data[p] == 91 || data[p] == 93 || data[p] == 33 || data[p] == 123 || data[p] == 125,
    ensures
        focus(data, p) == Some((ReadChar::Normal(data[p] as char), p + 1, false)),
{
    assert(step(data, p, false) == Some((ReadChar::Normal(data[p] as char), p + 1, false)));
}

/// The classification at an opening quote.
proof fn lemma_focus_at_quote(data: Seq<u8>, p: int)
    requires
        0 <= p < data.len(),
        data[p] == 34,
    ensures
        focus(data, p) == Some((ReadChar::Normal('"'), p + 1, true)),
{
    assert(step(data, p, false) == Some((ReadChar::Normal('"'), p + 1, true)));
}

/// The classification at an escape pair.
proof fn lemma_focus_at_escape(data: Seq<u8>, p: int)
    requires
        0 <= p,
        p + 1 < data.len(),
        data[p] == 92,
    ensures
        focus(data, p) == Some((ReadChar::Escaped(data[p + 1] as char), p + 2, false)),
{
    assert(step(data, p, false) == Some((ReadChar::Escaped(data[p + 1] as char), p + 2, false)));
}

/// The classification at the end of the input.
proof fn lemma_focus_at_end(data: Seq<u8>)
    ensures
        focus(data, data.len() as int) == Some((ReadChar::Eof, data.len() as int, false)),
{
    assert(step(data, data.len() as int, false) == Some(
        (ReadChar::Eof, data.len() as int, false),
    ));
}

/// Reading an escaped run as a flag name: each pair yields its character,
/// and the closing bracket and the space after it move the boundary on.
proof fn lemma_flag_run(data: Seq<u8>, k: int, s: Seq<char>)
    requires
        text_ok(s),
        s.len() > 0,
        0 <= k,
        k + 2 * s.len() + 2 <= data.len(),
        data.subrange(k, k + 2 * s.len()) == esc_bytes(s),
        data[k + 2 * s.len()] == 93,
        data[k + 2 * s.len() + 1] == 32,
        focus(data, k + 2 * s.len() + 2) is Some,
    ensures
        focus(data, k) == Some((ReadChar::Escaped(s[0]), k + 2, false)),
        s_flagname(data, PState { pos: k + 2, quoted: false, cur: ReadChar::Escaped(s[0]) })
            == Ok::<(Seq<char>, PState), ReaderError>((s, fst(data, k + 2 * s.len() + 2))),
    decreases s.len(),
{
    lemma_esc_bytes_len(s);
    assert((s[0] as u32) < 256);
    lemma_char_byte_roundtrip(s[0]);
    assert(esc_bytes(s)[0] == 92u8 && esc_bytes(s)[1] == s[0] as u8);
    assert(data[k] == 92 && data[k + 1] == s[0] as u8);
    lemma_focus_at_escape(data, k);
    let st = PState { pos: k + 2, quoted: false, cur: ReadChar::Escaped(s[0]) };
    if s.len() == 1 {
        assert(data[k + 2] == 93);
        assert(step(data, k + 2, false) == Some((ReadChar::Normal(']'), k + 3, false)));
        let st1 = PState { pos: k + 3, quoted: false, cur: ReadChar::Normal(']') };
        assert(s_advance(data, st) == Ok::<PState, ReaderError>(st1));
        assert(data[k + 3] == 32);
        assert(step(data, k + 3, false) == Some((ReadChar::Whitespace, k + 4, false)));
        let st2 = PState { pos: k + 4, quoted: false, cur: ReadChar::Whitespace };
        assert(s_advance(data, st1) == Ok::<PState, ReaderError>(st2));
        assert(s_advance(data, st2) == match focus(data, k + 4) {
            Some((c, p, q)) => Ok::<PState, ReaderError>(PState { pos: p, quoted: q, cur: c }),
            None => Err(crate::kv::reader::char_err(data)),
        });
        assert(s_flagname(data, st1) == Ok::<(Seq<char>, PState), ReaderError>(
            (Seq::empty(), fst(data, k + 4)),
        ));
        assert(seq![s[0]] + Seq::<char>::empty() =~= s);
    } else {
        let tail = s.subrange(1, s.len() as int);
        lemma_esc_bytes_len(tail);
        assert(esc_bytes(s) == seq![92u8, s[0] as u8] + esc_bytes(tail));
        assert(data.subrange(k + 2, k + 2 + 2 * tail.len()) =~= esc_bytes(tail)) by {
            assert(forall|i: int|
                0 <= i < 2 * tail.len() ==> data.subrange(k + 2, k + 2 + 2 * tail.len())[i]
                    == data[k + 2 + i] && data[k + 2 + i] == esc_bytes(s)[2 + i] && esc_bytes(
                    s,
                )[2 + i] == esc_bytes(tail)[i]);
        }
        assert(data[k + 2 + 2 * tail.len()] == 93);
        assert(data[k + 2 + 2 * tail.len() + 1] == 32);
        lemma_flag_run(data, k + 2, tail);
        assert((tail[0] as u32) < 256);
        lemma_char_byte_roundtrip(tail[0]);
        assert(esc_bytes(tail)[0] == 92u8 && esc_bytes(tail)[1] == tail[0] as u8);
        assert(data.subrange(k + 2, k + 2 + 2 * tail.len())[0] == data[k + 2]);
        assert(data.subrange(k + 2, k + 2 + 2 * tail.len())[1] == data[k + 3]);
        assert(data[k + 2] == 92 && data[k + 3] == tail[0] as u8);
        assert(step(data, k + 2, false) == Some((ReadChar::Escaped(tail[0]), k + 4, false)));
        assert(s_advance(data, st) == Ok::<PState, ReaderError>(
            PState { pos: k + 4, quoted: false, cur: ReadChar::Escaped(tail[0]) },
        ));
        assert(seq![s[0]] + tail =~= s);
    }
}

/// Parsing a serialized text at its boundary yields the text and stops at
/// the next boundary.
proof fn lemma_text_parses(data: Seq<u8>, k: int, s: Seq<char>)
    requires
        text_ok(s),
        0 <= k,
        k + ser_text(s).len() <= data.len(),
        data.subrange(k, k + ser_text(s).len() as int) == ser_text(s),
        focus(data, k + ser_text(s).len()) is Some,
    ensures
        s.len() == 0 ==> focus(data, k) == Some((ReadChar::Normal('"'), k + 1, true)),
        s.len() > 0 ==> focus(data, k) == Some((ReadChar::Escaped(s[0]), k + 2, false)),
        s_text(data, fst(data, k)) == Ok::<(Seq<char>, PState), ReaderError>(
            (s, fst(data, k + ser_text(s).len())),
        ),
{
    if s.len() == 0 {
        assert(data[k] == 34 && data[k + 1] == 34 && data[k + 2] == 32);
        lemma_focus_at_quote(data, k);
        let st = fst(data, k);
        assert(st == PState { pos: k + 1, quoted: true, cur: ReadChar::Normal('"') });
        assert(step(data, k + 1, true) == Some((ReadChar::Normal('"'), k + 2, false)));
        let st1 = PState { pos: k + 2, quoted: false, cur: ReadChar::Normal('"') };
        assert(s_advance(data, st) == Ok::<PState, ReaderError>(st1));
        assert(step(data, k + 2, false) == Some((ReadChar::Whitespace, k + 3, false)));
        let st2 = PState { pos: k + 3, quoted: false, cur: ReadChar::Whitespace };
        assert(s_advance(data, st1) == Ok::<PState, ReaderError>(st2));
        assert(s_advance(data, st2) == match focus(data, k + 3) {
            Some((c, p, q)) => Ok::<PState, ReaderError>(PState { pos: p, quoted: q, cur: c }),
            None => Err(crate::kv::reader::char_err(data)),
        });
        assert(s_qtext(data, st1) == Ok::<(Seq<char>, PState), ReaderError>(
            (Seq::empty(), fst(data, k + 3)),
        ));
        assert(s =~= Seq::<char>::empty());
        assert(s_text_quoted(data, st) == Ok::<(Seq<char>, PState), ReaderError>(
            (s, fst(data, k + 3)),
        ));
        assert(ser_text(s).len() == 3);
    } else {
        lemma_esc_bytes_len(s);
        assert(ser_text(s) == esc_bytes(s) + seq![32u8]);
        lemma_split(data, k, esc_bytes(s), seq![32u8]);
        assert(data[k + 2 * s.len()] == 32) by {
            assert(data.subrange(k + 2 * s.len(), k + 2 * s.len() + 1)[0] == data[k + 2
                * s.len()]);
        }
        lemma_unq_run(data, k, s);
        assert(fst(data, k) == PState { pos: k + 2, quoted: false, cur: ReadChar::Escaped(s[0]) });
        assert(!(fst(data, k).cur == ReadChar::Normal('"')));
    }
}


/// Parsing a serialized flag at its boundary yields the flag and stops at
/// the next boundary.
proof fn lemma_flag_parses(data: Seq<u8>, k: int, f: FlagM)
    requires
        flag_ok(f),
        !(f is Absent),
        0 <= k,
        k + ser_flag(f).len() <= data.len(),
        data.subrange(k, k + ser_flag(f).len() as int) == ser_flag(f),
        focus(data, k + ser_flag(f).len()) is Some,
    ensures
        focus(data, k) == Some((ReadChar::Normal('['), k + 1, false)),
        s_flag(data, fst(data, k)) == Ok::<(FlagM, PState), ReaderError>(
            (f, fst(data, k + ser_flag(f).len())),
        ),
{
    match f {
        FlagM::Absent => {
        },
        FlagM::Normal(n) => {
            lemma_esc_bytes_len(n);
            let head = seq![91u8] + esc_bytes(n);
            assert(ser_flag(f) == head + seq![93u8, 32u8]);
            lemma_split(data, k, head, seq![93u8, 32u8]);
            lemma_split(data, k, seq![91u8], esc_bytes(n));
            assert(data[k] == 91) by {
                assert(data.subrange(k, k + 1)[0] == data[k]);
            }
            assert(data[k + 1 + 2 * n.len()] == 93 && data[k + 1 + 2 * n.len() + 1] == 32) by {
                assert(data.subrange(k + head.len(), k + head.len() + 2)[0] == data[k + head.len()]);
                assert(data.subrange(k + head.len(), k + head.len() + 2)[1] == data[k + head.len()
                    + 1]);
            }
            lemma_focus_at_plain(data, k);
            let st = fst(data, k);
            assert(st == PState { pos: k + 1, quoted: false, cur: ReadChar::Normal('[') });
            if n.len() == 0 {
                assert(data[k + 1] == 93);
                assert(step(data, k + 1, false) == Some((ReadChar::Normal(']'), k + 2, false)));
                let st1 = PState { pos: k + 2, quoted: false, cur: ReadChar::Normal(']') };
                assert(s_advance_ws(data, st) == Ok::<PState, ReaderError>(st1));
                assert(data[k + 2] == 32);
                assert(step(data, k + 2, false) == Some((ReadChar::Whitespace, k + 3, false)));
                let st2 = PState { pos: k + 3, quoted: false, cur: ReadChar::Whitespace };
                assert(s_advance(data, st1) == Ok::<PState, ReaderError>(st2));
                assert(s_advance(data, st2) == match focus(data, k + 3) {
                    Some((c, p, q)) => Ok::<PState, ReaderError>(
                        PState { pos: p, quoted: q, cur: c },
                    ),
                    None => Err(crate::kv::reader::char_err(data)),
                });
                assert(s_flagname(data, st1) == Ok::<(Seq<char>, PState), ReaderError>(
                    (Seq::empty(), fst(data, k + 3)),
                ));
                assert(n =~= Seq::<char>::empty());
            } else {
                assert(esc_bytes(n)[0] == 92u8 && esc_bytes(n)[1] == n[0] as u8);
                assert(data[k + 1] == 92 && data[k + 2] == n[0] as u8) by {
                    assert(data.subrange(k + 1, k + 1 + 2 * n.len())[0] == data[k + 1]);
                    assert(data.subrange(k + 1, k + 1 + 2 * n.len())[1] == data[k + 2]);
                }
                assert((n[0] as u32) < 256);
                lemma_char_byte_roundtrip(n[0]);
                assert(step(data, k + 1, false) == Some((ReadChar::Escaped(n[0]), k + 3, false)));
                let st1 = PState { pos: k + 3, quoted: false, cur: ReadChar::Escaped(n[0]) };
                assert(s_advance_ws(data, st) == Ok::<PState, ReaderError>(st1));
                lemma_flag_run(data, k + 1, n);
            }
        },
        FlagM::Negated(n) => {
            lemma_esc_bytes_len(n);
            let head = seq![91u8, 33u8] + esc_bytes(n);
            assert(ser_flag(f) == head + seq![93u8, 32u8]);
            lemma_split(data, k, head, seq![93u8, 32u8]);
            lemma_split(data, k, seq![91u8, 33u8], esc_bytes(n));
            assert(data[k] == 91 && data[k + 1] == 33) by {
                assert(data.subrange(k, k + 2)[0] == data[k]);
                assert(data.subrange(k, k + 2)[1] == data[k + 1]);
            }
            assert(data[k + 2 + 2 * n.len()] == 93 && data[k + 2 + 2 * n.len() + 1] == 32) by {
                assert(data.subrange(k + head.len(), k + head.len() + 2)[0] == data[k + head.len()]);
                assert(data.subrange(k + head.len(), k + head.len() + 2)[1] == data[k + head.len()
                    + 1]);
            }
            lemma_focus_at_plain(data, k);
            let st = fst(data, k);
            assert(st == PState { pos: k + 1, quoted: false, cur: ReadChar::Normal('[') });
            assert(step(data, k + 1, false) == Some((ReadChar::Normal('!'), k + 2, false)));
            let st1 = PState { pos: k + 2, quoted: false, cur: ReadChar::Normal('!') };
            assert(s_advance_ws(data, st) == Ok::<PState, ReaderError>(st1));
            if n.len() == 0 {
                assert(data[k + 2] == 93);
                assert(step(data, k + 2, false) == Some((ReadChar::Normal(']'), k + 3, false)));
                let st2 = PState { pos: k + 3, quoted: false, cur: ReadChar::Normal(']') };
                assert(s_advance_ws(data, st1) == Ok::<PState, ReaderError>(st2));
                assert(data[k + 3] == 32);
                assert(step(data, k + 3, false) == Some((ReadChar::Whitespace, k + 4, false)));
                let st3 = PState { pos: k + 4, quoted: false, cur: ReadChar::Whitespace };
                assert(s_advance(data, st2) == Ok::<PState, ReaderError>(st3));
                assert(s_advance(data, st3) == match focus(data, k + 4) {
                    Some((c, p, q)) => Ok::<PState, ReaderError>(
                        PState { pos: p, quoted: q, cur: c },
                    ),
                    None => Err(crate::kv::reader::char_err(data)),
                });
                assert(s_flagname(data, st2) == Ok::<(Seq<char>, PState), ReaderError>(
                    (Seq::empty(), fst(data, k + 4)),
                ));
                assert(n =~= Seq::<char>::empty());
            } else {
                assert(esc_bytes(n)[0] == 92u8 && esc_bytes(n)[1] == n[0] as u8);
                assert(data[k + 2] == 92 && data[k + 3] == n[0] as u8) by {
                    assert(data.subrange(k + 2, k + 2 + 2 * n.len())[0] == data[k + 2]);
                    assert(data.subrange(k + 2, k + 2 + 2 * n.len())[1] == data[k + 3]);
                }
                assert((n[0] as u32) < 256);
                lemma_char_byte_roundtrip(n[0]);
                assert(step(data, k + 2, false) == Some((ReadChar::Escaped(n[0]), k + 4, false)));
                let st2 = PState { pos: k + 4, quoted: false, cur: ReadChar::Escaped(n[0]) };
                assert(s_advance_ws(data, st1) == Ok::<PState, ReaderError>(st2));
                lemma_flag_run(data, k + 2, n);
            }
        },
    }
}


/// A focused boundary is a well-formed parser state.
proof fn lemma_fst_wf(data: Seq<u8>, k: int)
    requires
        0 <= k <= data.len(),
        focus(data, k) is Some,
    ensures
        st_wf(data, fst(data, k)),
{
    crate::kv::char_reader::lemma_advance_until_progress(data, k, false);
}

/// Parsing a serialized value at its boundary yields the value and stops at
/// the next boundary.
proof fn lemma_value_parses(data: Seq<u8>, k: int, v: ValueM)
    requires
        value_ok(v),
        0 <= k,
        k + ser_value(v).len() <= data.len(),
        data.subrange(k, k + ser_value(v).len() as int) == ser_value(v),
        focus(data, k + ser_value(v).len()) is Some,
    ensures
        focus(data, k) is Some,
        v is Obj ==> fst(data, k).cur == ReadChar::Normal('{'),
        v is Text ==> (is_unq_char(fst(data, k).cur) || fst(data, k).cur == ReadChar::Normal(
            '"',
        )),
        s_value(data, fst(data, k)) == Ok::<(ValueM, PState), ReaderError>(
            (v, fst(data, k + ser_value(v).len())),
        ),
    decreases v,
{
    match v {
        ValueM::Text(s) => {
            lemma_text_parses(data, k, s);
        },
        ValueM::Obj(es) => {
            let inner = ser_entries(es);
            let head = seq![123u8, 32u8];
            assert(ser_value(v) == (head + inner) + seq![125u8, 32u8]) by {
                assert(ser_value(v) =~= (head + inner) + seq![125u8, 32u8]);
            }
            lemma_split(data, k, head + inner, seq![125u8, 32u8]);
            lemma_split(data, k, head, inner);
            let close = k + 2 + inner.len();
            assert(data[k] == 123 && data[k + 1] == 32) by {
                assert(data.subrange(k, k + 2)[0] == data[k]);
                assert(data.subrange(k, k + 2)[1] == data[k + 1]);
            }
            assert(data[close] == 125 && data[close + 1] == 32) by {
                assert(data.subrange(close, close + 2)[0] == data[close]);
                assert(data.subrange(close, close + 2)[1] == data[close + 1]);
            }
            lemma_focus_at_plain(data, k);
            let st = fst(data, k);
            assert(st == PState { pos: k + 1, quoted: false, cur: ReadChar::Normal('{') });
            lemma_focus_at_plain(data, close);
            assert(focus(data, close) == Some((ReadChar::Normal('}'), close + 1, false)));
            lemma_entries_parses(data, k + 2, es);
            // past the opening brace and its space
            assert(step(data, k + 1, false) == Some((ReadChar::Whitespace, k + 2, false)));
            let stw = PState { pos: k + 2, quoted: false, cur: ReadChar::Whitespace };
            assert(s_advance(data, st) == Ok::<PState, ReaderError>(stw));
            assert(s_advance(data, stw) == match focus(data, k + 2) {
                Some((c, p, q)) => Ok::<PState, ReaderError>(PState { pos: p, quoted: q, cur: c }),
                None => Err(crate::kv::reader::char_err(data)),
            });
            assert(s_advance_ws(data, st) == Ok::<PState, ReaderError>(fst(data, k + 2)));
            let st2 = fst(data, close);
            assert(st2 == PState { pos: close + 1, quoted: false, cur: ReadChar::Normal('}') });
            // past the closing brace and its space
            assert(step(data, close + 1, false) == Some((ReadChar::Whitespace, close + 2, false)));
            let stw2 = PState { pos: close + 2, quoted: false, cur: ReadChar::Whitespace };
            assert(s_advance(data, st2) == Ok::<PState, ReaderError>(stw2));
            assert(s_advance(data, stw2) == match focus(data, close + 2) {
                Some((c, p, q)) => Ok::<PState, ReaderError>(PState { pos: p, quoted: q, cur: c }),
                None => Err(crate::kv::reader::char_err(data)),
            });
            assert(s_advance_ws(data, st2) == Ok::<PState, ReaderError>(fst(data, close + 2)));
        },
    }
}

/// Parsing serialized entries at their boundary yields the entries and stops
/// at the following end-of-object token.
#[verifier::rlimit(100)]
proof fn lemma_entries_parses(data: Seq<u8>, k: int, es: Seq<EntryM>)
    requires
        entries_ok(es),
        0 <= k,
        k + ser_entries(es).len() <= data.len(),
        data.subrange(k, k + ser_entries(es).len() as int) == ser_entries(es),
        focus(data, k + ser_entries(es).len()) matches Some((c, p, q)) && (c is Eof || c
            == ReadChar::Normal('}')),
    ensures
        focus(data, k) is Some,
        es.len() > 0 ==> (fst(data, k).cur is Escaped || fst(data, k).cur == ReadChar::Normal(
            '"',
        )),
        s_object(data, fst(data, k)) == Ok::<(Seq<EntryM>, PState), ReaderError>(
            (es, fst(data, k + ser_entries(es).len())),
        ),
    decreases es,
{
    if es.len() == 0 {
        assert(ser_entries(es).len() == 0);
        let st = fst(data, k);
        assert(st.cur is Eof || st.cur == ReadChar::Normal('}'));
        assert(s_object(data, st) == Ok::<(Seq<EntryM>, PState), ReaderError>(
            (Seq::empty(), st),
        ));
        assert(es =~= Seq::<EntryM>::empty());
    } else {
        let e0 = es[0];
        let tail = es.subrange(1, es.len() as int);
        let t0 = ser_text(e0.key);
        let t1 = ser_value(e0.value);
        let t2 = ser_flag(e0.flag);
        let t3 = ser_entries(tail);
        assert(ser_entries(es) == ((t0 + t1) + t2) + t3) by {
            assert(ser_entries(es) =~= ((t0 + t1) + t2) + t3);
        }
        let k1 = k + t0.len();
        let k2 = k1 + t1.len();
        let k3 = k2 + t2.len();
        let kend = k3 + t3.len();
        lemma_split(data, k, (t0 + t1) + t2, t3);
        lemma_split(data, k, t0 + t1, t2);
        lemma_split(data, k, t0, t1);
        // work backwards so that every boundary's classification is known
        lemma_entries_parses(data, k3, tail);
        if e0.flag is Absent {
            assert(t2.len() == 0);
        } else {
            lemma_flag_parses(data, k2, e0.flag);
        }
        lemma_value_parses(data, k1, e0.value);
        lemma_text_parses(data, k, e0.key);
        let st = fst(data, k);
        let st1 = fst(data, k1);
        let st2 = fst(data, k2);
        let st3 = fst(data, k3);
        // the flag production leaves the state alone when no flag is written
        assert(s_flag(data, st2) == Ok::<(FlagM, PState), ReaderError>((e0.flag, st3))) by {
            if e0.flag is Absent {
                assert(k2 == k3 && st2 == st3);
                if tail.len() > 0 {
                    assert(!(st3.cur == ReadChar::Normal('[')));
                } else {
                    assert(st3.cur is Eof || st3.cur == ReadChar::Normal('}'));
                }
            }
        }
        // every entry consumes input, so the recursion guard holds
        assert(m_lt(data, st3, st)) by {
            lemma_fst_wf(data, k);
            lemma_s_text_progress(data, st);
            lemma_s_value_progress(data, st1);
            lemma_s_flag_progress(data, st2);
        }
        assert(s_object(data, st3) == Ok::<(Seq<EntryM>, PState), ReaderError>(
            (tail, fst(data, kend)),
        ));
        assert(EntryM { key: e0.key, flag: e0.flag, value: e0.value } == e0);
        assert(seq![e0] + tail =~= es);
    }
}

/// The round-trip law: a tree written out in the textual grammar parses back
/// to exactly its own entries, whenever every character of its text fits in
/// a byte.
pub proof fn lemma_round_trip(es: Seq<EntryM>)
    requires
        entries_ok(es),
    ensures
        spec_parse(ser_entries(es)) == Ok::<Seq<EntryM>, ReaderError>(es),
{
    let data = ser_entries(es);
    lemma_focus_at_end(data);
    assert(data.subrange(0, data.len() as int) =~= data);
    lemma_entries_parses(data, 0, es);
}


// ---------------------------------------------------------------------------
// Every parsed tree is byte-representable, which closes the loop: parsing,
// writing out, and parsing again yields the same entries.
// ---------------------------------------------------------------------------

/// A classification whose character, if any, fits in a byte.
pub open spec fn cur_ok(c: ReadChar) -> bool {
    match c {
        ReadChar::Normal(ch) => (ch as u32) < 256,
        ReadChar::Escaped(ch) => (ch as u32) < 256,
        _ => true,
    }
}

proof fn lemma_step_cur_ok(data: Seq<u8>, pos: int, quoted: bool)
    ensures
        step(data, pos, quoted) matches Some((c, p, q)) ==> cur_ok(c),
{
    if pos < data.len() {
        assert(((data[pos] as char) as u32) < 256) by {
            assert((data[pos] as int) < 256);
        }
        if pos + 1 < data.len() {
            assert(((data[pos + 1] as char) as u32) < 256) by {
                assert((data[pos + 1] as int) < 256);
            }
        }
    }
}

proof fn lemma_advance_until_cur_ok(data: Seq<u8>, pos: int, quoted: bool)
    ensures
        advance_until(data, pos, quoted) matches Some((c, p, q)) ==> cur_ok(c),
    decreases data.len() - pos,
{
    lemma_step_cur_ok(data, pos, quoted);
    match step(data, pos, quoted) {
        Some((c, p, q)) => {
            if c is Whitespace {
                crate::kv::char_reader::lemma_step_progress(data, pos, quoted);
                lemma_advance_until_cur_ok(data, p, q);
            }
        },
        None => (),
    }
}

proof fn lemma_s_advance_cur_ok(data: Seq<u8>, st: PState)
    ensures
        s_advance(data, st) matches Ok(st1) ==> cur_ok(st1.cur),
{
    if st.cur is Whitespace {
        lemma_advance_until_cur_ok(data, st.pos, st.quoted);
    } else {
        lemma_step_cur_ok(data, st.pos, st.quoted);
    }
}

proof fn lemma_s_advance_ws_cur_ok(data: Seq<u8>, st: PState)
    ensures
        s_advance_ws(data, st) matches Ok(st2) ==> cur_ok(st2.cur),
{
    lemma_s_advance_cur_ok(data, st);
    match s_advance(data, st) {
        Ok(st1) => lemma_s_advance_cur_ok(data, st1),
        Err(_) => (),
    }
}

proof fn lemma_s_qtext_ok(data: Seq<u8>, st: PState)
    requires
        cur_ok(st.cur),
    ensures
        s_qtext(data, st) matches Ok((txt, st2)) ==> text_ok(txt) && cur_ok(st2.cur),
    decreases rem(data, st), tok_rank(st.cur),
{
    if st.cur == ReadChar::Normal('"') {
        lemma_s_advance_ws_cur_ok(data, st);
    } else if st.cur is Eof || st.cur is Whitespace {
    } else {
        lemma_s_advance_cur_ok(data, st);
        lemma_sadv_progress(data, st);
        match s_advance(data, st) {
            Ok(st1) => {
                lemma_s_qtext_ok(data, st1);
                match s_qtext(data, st1) {
                    Ok((txt, st2)) => {
                        assert(forall|i: int|
                            0 <= i < (seq![st.cur.spec_char()] + txt).len() ==> (((
                            seq![st.cur.spec_char()] + txt)[i] as u32) < 256));
                    },
                    Err(_) => (),
                }
            },
            Err(_) => (),
        }
    }
}

proof fn lemma_s_unqtext_ok(data: Seq<u8>, st: PState)
    requires
        cur_ok(st.cur),
    ensures
        s_unqtext(data, st) matches Ok((txt, st2)) ==> text_ok(txt) && cur_ok(st2.cur),
    decreases rem(data, st), tok_rank(st.cur),
{
    if is_unq_char(st.cur) {
        lemma_s_advance_cur_ok(data, st);
        lemma_sadv_progress(data, st);
        match s_advance(data, st) {
            Ok(st1) => {
                lemma_s_unqtext_ok(data, st1);
                match s_unqtext(data, st1) {
                    Ok((txt, st2)) => {
                        assert(forall|i: int|
                            0 <= i < (seq![st.cur.spec_char()] + txt).len() ==> (((
                            seq![st.cur.spec_char()] + txt)[i] as u32) < 256));
                    },
                    Err(_) => (),
                }
            },
            Err(_) => (),
        }
    } else if st.cur is Whitespace {
        lemma_s_advance_cur_ok(data, st);
    }
}

proof fn lemma_s_text_ok(data: Seq<u8>, st: PState)
    requires
        cur_ok(st.cur),
    ensures
        s_text(data, st) matches Ok((txt, st2)) ==> text_ok(txt) && cur_ok(st2.cur),
{
    if st.cur == ReadChar::Normal('"') {
        lemma_s_advance_cur_ok(data, st);
        match s_advance(data, st) {
            Ok(st1) => lemma_s_qtext_ok(data, st1),
            Err(_) => (),
        }
    } else {
        lemma_s_unqtext_ok(data, st);
    }
}

proof fn lemma_s_flagname_ok(data: Seq<u8>, st: PState)
    requires
        cur_ok(st.cur),
    ensures
        s_flagname(data, st) matches Ok((txt, st2)) ==> text_ok(txt) && cur_ok(st2.cur),
    decreases rem(data, st), tok_rank(st.cur),
{
    if st.cur == ReadChar::Normal(']') {
        lemma_s_advance_ws_cur_ok(data, st);
    } else if st.cur is Eof || st.cur is Whitespace {
    } else {
        lemma_s_advance_cur_ok(data, st);
        lemma_sadv_progress(data, st);
        match s_advance(data, st) {
            Ok(st1) => {
                lemma_s_flagname_ok(data, st1);
                match s_flagname(data, st1) {
                    Ok((txt, st2)) => {
                        assert(forall|i: int|
                            0 <= i < (seq![st.cur.spec_char()] + txt).len() ==> (((
                            seq![st.cur.spec_char()] + txt)[i] as u32) < 256));
                    },
                    Err(_) => (),
                }
            },
            Err(_) => (),
        }
    }
}

proof fn lemma_s_flag_ok(data: Seq<u8>, st: PState)
    requires
        cur_ok(st.cur),
    ensures
        s_flag(data, st) matches Ok((f, st2)) ==> flag_ok(f) && cur_ok(st2.cur),
{
    if st.cur == ReadChar::Normal('[') {
        lemma_s_advance_ws_cur_ok(data, st);
        match s_advance_ws(data, st) {
            Ok(st1) => {
                if st1.cur == ReadChar::Normal('!') {
                    lemma_s_advance_ws_cur_ok(data, st1);
                    match s_advance_ws(data, st1) {
                        Ok(st2) => lemma_s_flagname_ok(data, st2),
                        Err(_) => (),
                    }
                } else {
                    lemma_s_flagname_ok(data, st1);
                }
            },
            Err(_) => (),
        }
    }
}

proof fn lemma_s_value_ok(data: Seq<u8>, st: PState)
    requires
        cur_ok(st.cur),
    ensures
        s_value(data, st) matches Ok((v, st1)) ==> value_ok(v) && cur_ok(st1.cur),
    decreases rem(data, st), tok_rank(st.cur), 1int,
{
    if st.cur == ReadChar::Normal('{') {
        lemma_s_advance_ws_cur_ok(data, st);
        lemma_sadv_ws_progress(data, st);
        match s_advance_ws(data, st) {
            Ok(st1) => {
                lemma_s_object_ok(data, st1);
                match s_object(data, st1) {
                    Ok((entries, st2)) => {
                        lemma_s_advance_ws_cur_ok(data, st2);
                    },
                    Err(_) => (),
                }
            },
            Err(_) => (),
        }
    } else if is_unq_char(st.cur) || st.cur == ReadChar::Normal('"') {
        lemma_s_text_ok(data, st);
    }
}

proof fn lemma_s_object_ok(data: Seq<u8>, st: PState)
    requires
        cur_ok(st.cur),
    ensures
        s_object(data, st) matches Ok((es, st4)) ==> entries_ok(es) && cur_ok(st4.cur),
    decreases rem(data, st), tok_rank(st.cur), 0int,
{
    if st.cur is Eof || st.cur == ReadChar::Normal('}') {
    } else if !(is_unq_char(st.cur) || st.cur == ReadChar::Normal('"')) {
    } else {
        lemma_s_text_ok(data, st);
        lemma_s_text_progress(data, st);
        match s_text(data, st) {
            Ok((key, st1)) => {
                lemma_s_value_ok(data, st1);
                lemma_s_value_progress(data, st1);
                match s_value(data, st1) {
                    Ok((val, st2)) => {
                        lemma_s_flag_ok(data, st2);
                        lemma_s_flag_progress(data, st2);
                        match s_flag(data, st2) {
                            Ok((flag, st3)) => {
                                if m_lt(data, st3, st) {
                                    lemma_s_object_ok(data, st3);
                                    match s_object(data, st3) {
                                        Ok((rest, st4)) => {
                                            let e0 = EntryM { key, flag, value: val };
                                            let es = seq![e0] + rest;
                                            assert(es[0] == e0);
                                            assert(es.subrange(1, es.len() as int) =~= rest);
                                        },
                                        Err(_) => (),
                                    }
                                }
                            },
                            Err(_) => (),
                        }
                    },
                    Err(_) => (),
                }
            },
            Err(_) => (),
        }
    }
}

/// Law: whatever parses was byte-representable: every character of a parsed
/// tree fits in a byte.
pub proof fn lemma_parsed_entries_ok(data: Seq<u8>, es: Seq<EntryM>)
    requires
        spec_parse(data) == Ok::<Seq<EntryM>, ReaderError>(es),
    ensures
        entries_ok(es),
{
    lemma_advance_until_cur_ok(data, 0, false);
    match advance_until(data, 0, false) {
        Some((c, p, q)) => {
            lemma_s_object_ok(data, PState { pos: p, quoted: q, cur: c });
        },
        None => (),
    }
}

/// Law: parsing, writing the result back out, and parsing again yields the
/// same entries.
pub proof fn lemma_reparse(data: Seq<u8>, es: Seq<EntryM>)
    requires
        spec_parse(data) == Ok::<Seq<EntryM>, ReaderError>(es),
    ensures
        spec_parse(ser_entries(es)) == Ok::<Seq<EntryM>, ReaderError>(es),
{
    lemma_parsed_entries_ok(data, es);
    lemma_round_trip(es);
}

} // verus!
