//! Reading JSON text as tokens, and the JSON to TSON encoder.

use vstd::prelude::*;
use vstd::slice::slice_to_vec;
use vstd::utf8::encode_utf8;
use crate::cursor::ValueCursor;
use crate::error::DbError;
use crate::tags::{
    JSON_ARRAY_BEGIN, JSON_ARRAY_END, JSON_ESCAPE, JSON_OBJECT_BEGIN, JSON_OBJECT_END, JSON_PAIR,
    JSON_QUOTE, JSON_SEPARATOR,
};
use crate::parsed::Parsed;
use crate::tags::{
    le32, le32_bytes, lemma_le32_zero, le64, le64_bytes, ARRAY_BEGIN, ARRAY_END, FALSE, NULL, NUMBER, OBJECT_BEGIN,
    OBJECT_END, PAIR, SEPARATOR, STRING, TRUE,
};
use crate::tokens::{
    balanced, bind_nums, closing, framed, lemma_composite_framed, lemma_framed_concat,
    lemma_num_count_concat, lemma_stack_after_none, lemma_tok_tson_framed, lemma_tok_tson_reads,
    lemma_tson_tokens_concat, num_count, prepend,
    scalar_tok, stack_after, tok_tson, tson_token, tson_tokens, Tok,
};

verus! {

/// The index of the quote that closes a JSON string whose contents start at
/// `i`, or -1. A backslash takes the byte after it along.
pub open spec fn string_end(s: Seq<u8>, i: int) -> int
    decreases s.len() - i,
{
    if i < 0 || i >= s.len() {
        -1
    } else if s[i] == JSON_ESCAPE {
        if i + 1 >= s.len() {
            -1
        } else {
            string_end(s, i + 2)
        }
    } else if s[i] == JSON_QUOTE {
        i
    } else {
        string_end(s, i + 1)
    }
}

pub proof fn lemma_string_end_range(s: Seq<u8>, i: int)
    ensures
        string_end(s, i) >= 0 ==> i <= string_end(s, i) < s.len() && s[string_end(s, i)]
            == JSON_QUOTE,
    decreases s.len() - i,
{
    if 0 <= i < s.len() {
        if s[i] == JSON_ESCAPE {
            if i + 1 < s.len() {
                lemma_string_end_range(s, i + 2);
            }
        } else if s[i] != JSON_QUOTE {
            lemma_string_end_range(s, i + 1);
        }
    }
}

/// A byte that ends a number literal.
pub open spec fn ends_number(b: u8) -> bool {
    b == JSON_SEPARATOR || b == JSON_OBJECT_END || b == JSON_ARRAY_END
}

/// The index of the first byte from `i` on that ends a number literal, or -1.
pub open spec fn number_end(s: Seq<u8>, i: int) -> int
    decreases s.len() - i,
{
    if i < 0 || i >= s.len() {
        -1
    } else if ends_number(s[i]) {
        i
    } else {
        number_end(s, i + 1)
    }
}

/// The bytes of `true`, `false` and `null` after their first letter.
pub open spec fn word_rest(first: u8) -> Seq<u8> {
    if first == 0x74 {
        seq![0x72u8, 0x75u8, 0x65u8]
    } else if first == 0x66 {
        seq![0x61u8, 0x6cu8, 0x73u8, 0x65u8]
    } else {
        seq![0x75u8, 0x6cu8, 0x6cu8]
    }
}

/// A byte that starts `true`, `false` or `null`.
pub open spec fn starts_word(b: u8) -> bool {
    b == 0x74 || b == 0x66 || b == 0x6e
}

/// The token of JSON text `s` at `i`, and the index after it. Any byte that
/// starts no other token starts a number, which runs up to the next `,`, `}`
/// or `]`.
pub open spec fn json_token(s: Seq<u8>, i: int) -> Option<(Tok, int)> {
    if i < 0 || i >= s.len() {
        None
    } else {
        let b = s[i];
        if b == JSON_OBJECT_BEGIN {
            Some((Tok::ObjOpen, i + 1))
        } else if b == JSON_OBJECT_END {
            Some((Tok::ObjClose, i + 1))
        } else if b == JSON_ARRAY_BEGIN {
            Some((Tok::ArrOpen, i + 1))
        } else if b == JSON_ARRAY_END {
            Some((Tok::ArrClose, i + 1))
        } else if b == JSON_PAIR {
            Some((Tok::Pair, i + 1))
        } else if b == JSON_SEPARATOR {
            Some((Tok::Sep, i + 1))
        } else if b == JSON_QUOTE {
            let e = string_end(s, i + 1);
            if e >= 0 {
                Some((Tok::Str(s.subrange(i + 1, e)), e + 1))
            } else {
                None
            }
        } else if starts_word(b) {
            let w = word_rest(b);
            if i + 1 + w.len() <= s.len() && s.subrange(i + 1, i + 1 + w.len()) == w {
                Some(
                    (
                        if b == 0x74 {
                            Tok::True
                        } else if b == 0x66 {
                            Tok::False
                        } else {
                            Tok::Null
                        },
                        i + 1 + w.len(),
                    ),
                )
            } else {
                None
            }
        } else {
            let e = number_end(s, i);
            if e >= 0 {
                Some((Tok::Num(s.subrange(i, e)), e))
            } else {
                None
            }
        }
    }
}

/// The tokens of JSON text `s` from `i` on, if it reads as tokens to its end.
pub open spec fn lex_from(s: Seq<u8>, i: int) -> Option<Seq<Tok>>
    decreases s.len() - i,
{
    if i < 0 || i >= s.len() {
        Some(Seq::empty())
    } else {
        match json_token(s, i) {
            Some((t, j)) => if i < j <= s.len() {
                prepend(seq![t], lex_from(s, j))
            } else {
                None
            },
            None => None,
        }
    }
}

/// The tokens of JSON text `s`.
pub open spec fn lex(s: Seq<u8>) -> Option<Seq<Tok>> {
    lex_from(s, 0)
}

/// Reads the contents of a string whose opening quote has been read, and the
/// closing quote; the bytes are kept as they stand, escapes included.
pub fn read_string(cursor: &mut ValueCursor) -> (r: Option<Vec<u8>>)
    requires
        old(cursor).wf(),
    ensures
        final(cursor).wf(),
        final(cursor).data() == old(cursor).data(),
        ({
            let e = string_end(old(cursor).data(), old(cursor).pos());
            if e >= 0 {
                &&& r is Some
                &&& r->0@ == old(cursor).data().subrange(old(cursor).pos(), e)
                &&& final(cursor).pos() == e + 1
            } else {
                r is None
            }
        }),
{
    let start = cursor.get_index();
    let ghost s = cursor.data();
    proof {
        lemma_string_end_range(s, start as int);
    }
    loop
        invariant
            cursor.wf(),
            cursor.data() == s,
            s == old(cursor).data(),
            start == old(cursor).pos(),
            start <= cursor.pos() <= s.len(),
            string_end(s, start as int) == string_end(s, cursor.pos()),
        decreases s.len() - cursor.pos(),
    {
        if cursor.get_index() >= cursor.get_value_ref().len() {
            return None;
        }
        let val = cursor.read_next();
        if val == JSON_ESCAPE {
            if cursor.get_index() >= cursor.get_value_ref().len() {
                return None;
            }
            cursor.skip_next();
        } else if val == JSON_QUOTE {
            let end = cursor.get_index() - 1;
            assert(string_end(s, end as int) == end);
            let bytes = cursor.read_range(start..end);
            return Some(slice_to_vec(bytes));
        }
    }
}

pub proof fn lemma_number_end_range(s: Seq<u8>, i: int)
    ensures
        number_end(s, i) >= 0 ==> i <= number_end(s, i) < s.len() && ends_number(
            s[number_end(s, i)],
        ),
    decreases s.len() - i,
{
    if 0 <= i < s.len() && !ends_number(s[i]) {
        lemma_number_end_range(s, i + 1);
    }
}

/// Reads a number literal that starts at the cursor, up to the byte that ends
/// it, which is left unread.
pub fn read_number(cursor: &mut ValueCursor) -> (r: Option<Vec<u8>>)
    requires
        old(cursor).wf(),
    ensures
        final(cursor).wf(),
        final(cursor).data() == old(cursor).data(),
        ({
            let e = number_end(old(cursor).data(), old(cursor).pos());
            if e >= 0 {
                &&& r is Some
                &&& r->0@ == old(cursor).data().subrange(old(cursor).pos(), e)
                &&& final(cursor).pos() == e
            } else {
                r is None
            }
        }),
{
    let prev = cursor.get_index();
    let ghost s = cursor.data();
    proof {
        lemma_number_end_range(s, prev as int);
    }
    loop
        invariant
            cursor.wf(),
            cursor.data() == s,
            s == old(cursor).data(),
            prev == old(cursor).pos(),
            prev <= cursor.pos() <= s.len(),
            number_end(s, prev as int) == number_end(s, cursor.pos()),
        decreases s.len() - cursor.pos(),
    {
        if cursor.get_index() >= cursor.get_value_ref().len() {
            return None;
        }
        let val = cursor.read_next();
        if val == JSON_SEPARATOR || val == JSON_OBJECT_END || val == JSON_ARRAY_END {
            cursor.skip_reverse_by(1);
            let current = cursor.get_index();
            assert(number_end(s, current as int) == current);
            let bytes = cursor.read_range(prev..current);
            return Some(slice_to_vec(bytes));
        }
    }
}

/// Reads the bytes `w` at the cursor, if they are there.
pub fn expect_bytes(cursor: &mut ValueCursor, w: &[u8]) -> (r: bool)
    requires
        old(cursor).wf(),
    ensures
        final(cursor).wf(),
        final(cursor).data() == old(cursor).data(),
        r == (old(cursor).pos() + w@.len() <= old(cursor).data().len() && old(
            cursor,
        ).data().subrange(old(cursor).pos(), old(cursor).pos() + w@.len()) == w@),
        r ==> final(cursor).pos() == old(cursor).pos() + w@.len(),
{
    let ghost s = cursor.data();
    let ghost p = cursor.pos();
    if w.len() > cursor.get_value_ref().len() - cursor.get_index() {
        return false;
    }
    let mut i: usize = 0;
    while i < w.len()
        invariant
            cursor.wf(),
            cursor.data() == s,
            s == old(cursor).data(),
            p == old(cursor).pos(),
            0 <= p,
            p + w@.len() <= s.len(),
            i <= w@.len(),
            cursor.pos() == p + i,
            s.subrange(p, p + i) == w@.subrange(0, i as int),
        decreases w@.len() - i,
    {
        let b = cursor.read_next();
        assert(b == s[p + i]);
        if b != w[i] {
            assert(s.subrange(p, p + w@.len())[i as int] != w@[i as int]);
            return false;
        }
        i = i + 1;
        assert(s.subrange(p, p + i) =~= w@.subrange(0, i as int));
    }
    assert(w@.subrange(0, i as int) =~= w@);
    true
}

/// A token of JSON text, as read.
#[derive(Debug, PartialEq, Eq)]
pub enum Lexeme {
    ObjOpen,
    ObjClose,
    ArrOpen,
    ArrClose,
    Str(Vec<u8>),
    Num(Vec<u8>),
    True,
    False,
    Null,
    Pair,
    Sep,
}

impl View for Lexeme {
    type V = Tok;

    open spec fn view(&self) -> Tok {
        match self {
            Lexeme::ObjOpen => Tok::ObjOpen,
            Lexeme::ObjClose => Tok::ObjClose,
            Lexeme::ArrOpen => Tok::ArrOpen,
            Lexeme::ArrClose => Tok::ArrClose,
            Lexeme::Str(v) => Tok::Str(v@),
            Lexeme::Num(v) => Tok::Num(v@),
            Lexeme::True => Tok::True,
            Lexeme::False => Tok::False,
            Lexeme::Null => Tok::Null,
            Lexeme::Pair => Tok::Pair,
            Lexeme::Sep => Tok::Sep,
        }
    }
}

/// Reads the JSON token at the cursor.
pub fn next_lexeme(cursor: &mut ValueCursor) -> (r: Option<Lexeme>)
    requires
        old(cursor).wf(),
        old(cursor).pos() < old(cursor).data().len(),
    ensures
        final(cursor).wf(),
        final(cursor).data() == old(cursor).data(),
        match json_token(old(cursor).data(), old(cursor).pos()) {
            Some((t, j)) => r is Some && r->0@ == t && final(cursor).pos() == j && j > old(
                cursor,
            ).pos(),
            None => r is None,
        },
{
    let ghost s = cursor.data();
    let ghost i = cursor.pos();
    let b = cursor.read_next();
    if b == JSON_OBJECT_BEGIN {
        Some(Lexeme::ObjOpen)
    } else if b == JSON_OBJECT_END {
        Some(Lexeme::ObjClose)
    } else if b == JSON_ARRAY_BEGIN {
        Some(Lexeme::ArrOpen)
    } else if b == JSON_ARRAY_END {
        Some(Lexeme::ArrClose)
    } else if b == JSON_PAIR {
        Some(Lexeme::Pair)
    } else if b == JSON_SEPARATOR {
        Some(Lexeme::Sep)
    } else if b == JSON_QUOTE {
        proof {
            lemma_string_end_range(s, i + 1);
        }
        match read_string(cursor) {
            Some(v) => Some(Lexeme::Str(v)),
            None => None,
        }
    } else if b == 0x74 {
        let w: [u8; 3] = [0x72, 0x75, 0x65];
        assert(w@ =~= word_rest(b));
        if expect_bytes(cursor, &w) {
            Some(Lexeme::True)
        } else {
            None
        }
    } else if b == 0x66 {
        let w: [u8; 4] = [0x61, 0x6c, 0x73, 0x65];
        assert(w@ =~= word_rest(b));
        if expect_bytes(cursor, &w) {
            Some(Lexeme::False)
        } else {
            None
        }
    } else if b == 0x6e {
        let w: [u8; 3] = [0x75, 0x6c, 0x6c];
        assert(w@ =~= word_rest(b));
        if expect_bytes(cursor, &w) {
            Some(Lexeme::Null)
        } else {
            None
        }
    } else {
        proof {
            lemma_number_end_range(s, i + 1);
        }
        assert(!ends_number(s[i]));
        assert(number_end(s, i) == number_end(s, i + 1));
        cursor.skip_reverse_by(1);
        match read_number(cursor) {
            Some(v) => Some(Lexeme::Num(v)),
            None => None,
        }
    }
}

/// The literal text of each number in JSON text, in order; `None` where the
/// text does not read as tokens.
pub fn number_literals(json: &[u8]) -> (r: Option<Vec<Vec<u8>>>)
    ensures
        match lex(json@) {
            Some(toks) => r is Some && r->0@.map_values(|v: Vec<u8>| v@)
                == crate::tokens::num_payloads(toks),
            None => r is None,
        },
{
    let mut cursor = ValueCursor::new(slice_to_vec(json));
    let mut out: Vec<Vec<u8>> = Vec::new();
    let ghost mut done: Seq<Tok> = Seq::empty();
    while cursor.get_index() < cursor.get_value_ref().len()
        invariant
            cursor.wf(),
            cursor.data() == json@,
            lex(json@) == prepend(done, lex_from(json@, cursor.pos())),
            out@.map_values(|v: Vec<u8>| v@) == crate::tokens::num_payloads(done),
        decreases json@.len() - cursor.pos(),
    {
        let ghost i = cursor.pos();
        let lexeme = next_lexeme(&mut cursor);
        match lexeme {
            None => {
                return None;
            },
            Some(l) => {
                let ghost t = l@;
                assert(lex_from(json@, i) == prepend(seq![t], lex_from(json@, cursor.pos())));
                proof {
                    lemma_prepend_step(done, t, lex_from(json@, cursor.pos()));
                }
                match l {
                    Lexeme::Num(v) => {
                        out.push(v);
                    },
                    _ => {},
                }
                proof {
                    let d2 = done.push(t);
                    assert(d2.drop_last() =~= done);
                    done = d2;
                }
                assert(out@.map_values(|v: Vec<u8>| v@) =~= crate::tokens::num_payloads(done));
            },
        }
    }
    assert(done + Seq::<Tok>::empty() =~= done);
    Some(out)
}

proof fn lemma_prepend_step(done: Seq<Tok>, t: Tok, rest: Option<Seq<Tok>>)
    ensures
        prepend(done, prepend(seq![t], rest)) == prepend(done.push(t), rest),
{
    if let Some(r) = rest {
        assert(done + (seq![t] + r) =~= done.push(t) + r);
    }
}

/// The kinds of the open composites on an encoder's stack.
pub open spec fn kinds(st: Seq<(usize, bool)>) -> Seq<bool> {
    st.map_values(|e: (usize, bool)| e.1)
}

/// The tag that opens an object (`true`) or an array.
pub open spec fn open_tag(obj: bool) -> u8 {
    if obj {
        OBJECT_BEGIN
    } else {
        ARRAY_BEGIN
    }
}

/// The bytes written since composite `i` of the stack was opened, up to the
/// header of the next one; level 0 is the top level.
pub open spec fn segment(out: Seq<u8>, st: Seq<(usize, bool)>, i: int) -> Seq<u8> {
    out.subrange(
        if i == 0 {
            0
        } else {
            st[i - 1].0 as int
        },
        if i < st.len() {
            st[i].0 - 5
        } else {
            out.len() as int
        },
    )
}

/// What the encoder's output and stack hold after the tokens `done`: the
/// output reads as those tokens, each open composite's header stands where
/// the stack says, and every level written so far is framed.
pub open spec fn state_ok(
    out: Seq<u8>,
    st: Seq<(usize, bool)>,
    done: Seq<Tok>,
    vals: Seq<Seq<u8>>,
) -> bool {
    &&& stack_after(done) == Some(kinds(st))
    &&& tson_tokens(out) == Some(bind_nums(done, vals))
    &&& forall|i: int|
        0 <= i < st.len() ==> {
            &&& 5 <= #[trigger] st[i].0 <= out.len()
            &&& out[st[i].0 - 5] == open_tag(st[i].1)
            &&& tson_tokens(out.subrange(0, st[i].0 - 5)) is Some
        }
    &&& forall|i: int, j: int| 0 <= i < j < st.len() ==> #[trigger] st[i].0 <= #[trigger] st[j].0 - 5
    &&& forall|i: int| 0 <= i <= st.len() ==> framed(#[trigger] segment(out, st, i))
}

/// A token as the encoder writes it: a number takes the next payload.
pub open spec fn bound(t: Tok, done: Seq<Tok>, vals: Seq<Seq<u8>>) -> Tok {
    if t is Num {
        Tok::Num(vals[num_count(done) as int])
    } else {
        t
    }
}

proof fn lemma_bind_push(done: Seq<Tok>, t: Tok, vals: Seq<Seq<u8>>)
    ensures
        bind_nums(done.push(t), vals) == bind_nums(done, vals).push(bound(t, done, vals)),
        num_count(done.push(t)) == num_count(done) + if t is Num {
            1nat
        } else {
            0nat
        },
{
    assert(done.push(t).drop_last() =~= done);
}

proof fn lemma_tokens_append(out: Seq<u8>, toks: Seq<Tok>, t: Tok)
    requires
        tson_tokens(out) == Some(toks),
        scalar_tok(t) || t is ObjOpen || t is ArrOpen || t is ObjClose || t is ArrClose,
    ensures
        tson_tokens(out + tok_tson(t)) == Some(toks.push(t)),
{
    lemma_tson_tokens_concat(out, tok_tson(t));
    lemma_tok_tson_reads(t);
    assert(toks + seq![t] =~= toks.push(t));
}

proof fn lemma_push_scalar(out: Seq<u8>, st: Seq<(usize, bool)>, done: Seq<Tok>, vals: Seq<Seq<u8>>, t: Tok)
    requires
        state_ok(out, st, done, vals),
        scalar_tok(bound(t, done, vals)),
    ensures
        state_ok(out + tok_tson(bound(t, done, vals)), st, done.push(t), vals),
{
    let b = bound(t, done, vals);
    let e = tok_tson(b);
    let out2 = out + e;
    assert(done.push(t).drop_last() =~= done);
    lemma_bind_push(done, t, vals);
    lemma_tokens_append(out, bind_nums(done, vals), b);
    assert forall|i: int| 0 <= i < st.len() implies {
        &&& 5 <= #[trigger] st[i].0 <= out2.len()
        &&& out2[st[i].0 - 5] == open_tag(st[i].1)
        &&& tson_tokens(out2.subrange(0, st[i].0 - 5)) is Some
    } by {
        assert(out2.subrange(0, st[i].0 - 5) =~= out.subrange(0, st[i].0 - 5));
    }
    assert forall|i: int| 0 <= i <= st.len() implies framed(#[trigger] segment(out2, st, i)) by {
        assert(framed(segment(out, st, i)));
        if i < st.len() {
            assert(segment(out2, st, i) =~= segment(out, st, i));
        } else {
            lemma_tok_tson_framed(b);
            assert(segment(out2, st, i) =~= segment(out, st, i) + e);
            lemma_framed_concat(segment(out, st, i), e);
        }
    }
}

proof fn lemma_push_open(out: Seq<u8>, st: Seq<(usize, bool)>, done: Seq<Tok>, vals: Seq<Seq<u8>>, obj: bool)
    requires
        state_ok(out, st, done, vals),
        out.len() + 5 <= usize::MAX,
    ensures
        state_ok(
            out + tok_tson(if obj { Tok::ObjOpen } else { Tok::ArrOpen }),
            st.push(((out.len() + 5) as usize, obj)),
            done.push(if obj { Tok::ObjOpen } else { Tok::ArrOpen }),
            vals,
        ),
{
    let t = if obj { Tok::ObjOpen } else { Tok::ArrOpen };
    let e = tok_tson(t);
    let out2 = out + e;
    let st2 = st.push(((out.len() + 5) as usize, obj));
    assert(done.push(t).drop_last() =~= done);
    assert(kinds(st2) =~= kinds(st).push(obj));
    lemma_bind_push(done, t, vals);
    lemma_tokens_append(out, bind_nums(done, vals), t);
    assert forall|i: int| 0 <= i < st2.len() implies {
        &&& 5 <= #[trigger] st2[i].0 <= out2.len()
        &&& out2[st2[i].0 - 5] == open_tag(st2[i].1)
        &&& tson_tokens(out2.subrange(0, st2[i].0 - 5)) is Some
    } by {
        if i < st.len() {
            assert(st2[i] == st[i]);
            assert(out2.subrange(0, st[i].0 - 5) =~= out.subrange(0, st[i].0 - 5));
        } else {
            assert(out2.subrange(0, st2[i].0 - 5) =~= out);
        }
    }
    assert forall|i: int, j: int| 0 <= i < j < st2.len() implies #[trigger] st2[i].0 <= #[trigger] st2[j].0
        - 5 by {
        assert(st2[i] == st[i]);
        if j < st.len() {
            assert(st2[j] == st[j]);
        }
    }
    assert forall|i: int| 0 <= i <= st2.len() implies framed(#[trigger] segment(out2, st2, i)) by {
        if i < st.len() {
            assert(framed(segment(out, st, i)));
            assert(st2[i] == st[i]);
            if i > 0 {
                assert(st2[i - 1] == st[i - 1]);
            }
            assert(segment(out2, st2, i) =~= segment(out, st, i));
        } else if i == st.len() {
            assert(framed(segment(out, st, i)));
            if i > 0 {
                assert(st2[i - 1] == st[i - 1]);
            }
            assert(segment(out2, st2, i) =~= segment(out, st, i));
        } else {
            assert(segment(out2, st2, i) =~= Seq::<u8>::empty());
        }
    }
}

proof fn lemma_header_irrelevant(h1: Seq<u8>, h2: Seq<u8>, r: Seq<u8>)
    requires
        h1.len() == 5,
        h2.len() == 5,
        h1[0] == h2[0],
        h1[0] == OBJECT_BEGIN || h1[0] == ARRAY_BEGIN,
    ensures
        tson_tokens(h1 + r) == tson_tokens(h2 + r),
{
    assert((h1 + r)[0] == h1[0]);
    assert((h2 + r)[0] == h2[0]);
    assert((h1 + r).subrange(5, (h1 + r).len() as int) =~= r);
    assert((h2 + r).subrange(5, (h2 + r).len() as int) =~= r);
}

/// The output after closing the innermost composite: its end tag is written
/// and its header gets the length of what follows it.
pub open spec fn closed_out(out: Seq<u8>, st: Seq<(usize, bool)>) -> Seq<u8> {
    let s = st.last().0 as int;
    let out1 = out.push(if st.last().1 { OBJECT_END } else { ARRAY_END });
    out1.subrange(0, s - 4) + le32((out1.len() - s) as u32) + out1.subrange(s, out1.len() as int)
}

#[verifier::rlimit(50)]
proof fn lemma_push_close(out: Seq<u8>, st: Seq<(usize, bool)>, done: Seq<Tok>, vals: Seq<Seq<u8>>)
    requires
        state_ok(out, st, done, vals),
        st.len() > 0,
        out.len() + 1 <= u32::MAX,
    ensures
        state_ok(
            closed_out(out, st),
            st.drop_last(),
            done.push(if st.last().1 { Tok::ObjClose } else { Tok::ArrClose }),
            vals,
        ),
{
    let d = st.len() - 1;
    let obj = st.last().1;
    let s = st.last().0 as int;
    let t = if obj { Tok::ObjClose } else { Tok::ArrClose };
    let tag = open_tag(obj);
    let out1 = out + tok_tson(t);
    assert(out1 =~= out.push(if obj { OBJECT_END } else { ARRAY_END }));
    let l = (out1.len() - s) as u32;
    let out2 = closed_out(out, st);
    let st2 = st.drop_last();
    assert(st[d] == st.last());
    // the stack of kinds loses its last entry
    assert(done.push(t).drop_last() =~= done);
    assert(kinds(st2) =~= kinds(st).drop_last());
    assert(kinds(st).last() == obj);
    lemma_bind_push(done, t, vals);
    lemma_tokens_append(out, bind_nums(done, vals), t);
    // patching the header does not change the tokens
    let p = out.subrange(0, s - 5);
    assert(tson_tokens(p) is Some);
    let h1 = out1.subrange(s - 5, s);
    let h2 = seq![tag] + le32(l);
    let r = out1.subrange(s, out1.len() as int);
    assert(out1 =~= p + (h1 + r));
    assert(out2 =~= p + (h2 + r));
    lemma_header_irrelevant(h1, h2, r);
    lemma_tson_tokens_concat(p, h1 + r);
    lemma_tson_tokens_concat(p, h2 + r);
    // the rest of the stack is untouched
    assert forall|i: int| 0 <= i < st2.len() implies {
        &&& 5 <= #[trigger] st2[i].0 <= out2.len()
        &&& out2[st2[i].0 - 5] == open_tag(st2[i].1)
        &&& tson_tokens(out2.subrange(0, st2[i].0 - 5)) is Some
    } by {
        assert(st2[i] == st[i]);
        assert(st[i].0 <= st[d].0 - 5);
        assert(out2.subrange(0, st[i].0 - 5) =~= out.subrange(0, st[i].0 - 5));
    }
    assert forall|i: int, j: int| 0 <= i < j < st2.len() implies #[trigger] st2[i].0 <= #[trigger] st2[j].0
        - 5 by {
        assert(st2[i] == st[i]);
        assert(st2[j] == st[j]);
    }
    // the closed composite is one framed value at the end of the level below
    let body = segment(out, st, d + 1);
    assert(framed(body));
    assert(body =~= out.subrange(s, out.len() as int));
    assert(l == body.len() + 1);
    assert(closing(tag) == (if obj { OBJECT_END } else { ARRAY_END }));
    lemma_composite_framed(tag, body);
    let elem = seq![tag] + le32(l) + body + seq![closing(tag)];
    assert forall|i: int| 0 <= i <= st2.len() implies framed(#[trigger] segment(out2, st2, i)) by {
        assert(framed(segment(out, st, i)));
        if i > 0 {
            assert(st2[i - 1] == st[i - 1]);
            assert(st[i - 1].0 <= st[d].0 - 5);
        }
        if i < st2.len() {
            assert(st2[i] == st[i]);
            assert(st[i].0 <= st[d].0 - 5);
            assert(segment(out2, st2, i) =~= segment(out, st, i));
        } else {
            assert(segment(out2, st2, i) =~= segment(out, st, i) + elem);
            lemma_framed_concat(segment(out, st, i), elem);
        }
    }
}

/// The largest JSON text, and id, that the encoder takes: the TSON it writes
/// stays within what a u32 length can describe.
pub const MAX_INPUT: usize = 0x1000_0000;

/// The TSON payload of each number: the little-endian bytes of its bits.
pub open spec fn payloads(nums: Seq<u64>) -> Seq<Seq<u8>> {
    nums.map_values(|x: u64| le64(x))
}

/// The encoder succeeds on these tokens: every composite is closed by its
/// own kind, and there is one number value for each number token.
pub open spec fn accepted(toks: Option<Seq<Tok>>, nums: Seq<u64>) -> bool {
    &&& toks is Some
    &&& balanced(toks->0)
    &&& num_count(toks->0) == nums.len()
}

/// The tokens that a forced `_id` puts at the head of a document.
pub open spec fn id_prefix(id: Seq<u8>) -> Seq<Tok> {
    seq![Tok::ObjOpen, Tok::Str(seq![0x5fu8, 0x69u8, 0x64u8]), Tok::Pair, Tok::Str(id), Tok::Sep]
}

proof fn lemma_state_empty(vals: Seq<Seq<u8>>)
    ensures
        state_ok(Seq::empty(), Seq::empty(), Seq::empty(), vals),
{
    assert(kinds(Seq::empty()) =~= Seq::<bool>::empty());
    assert(bind_nums(Seq::empty(), vals) =~= Seq::<Tok>::empty());
    assert(segment(Seq::empty(), Seq::empty(), 0) =~= Seq::<u8>::empty());
}

/// Transcodes JSON text into TSON in one pass; the length of each composite
/// is written once the composite closes. Numbers arrive as the bit patterns
/// of their values, one for each number literal in order of appearance.
pub struct JSONParser {
    cursor: ValueCursor,
    parsed: Parsed,
    stack: Vec<(usize, bool)>,
    numbers: Vec<u64>,
    next_number: usize,
    done: Ghost<Seq<Tok>>,
}

impl JSONParser {
    /// The JSON text being read.
    pub closed spec fn source(&self) -> Seq<u8> {
        self.cursor.data()
    }

    /// The position reached in the text.
    pub closed spec fn position(&self) -> int {
        self.cursor.pos()
    }

    /// The tokens written so far.
    pub closed spec fn emitted(&self) -> Seq<Tok> {
        self.done@
    }

    /// The values of the numbers, in order.
    pub closed spec fn numbers(&self) -> Seq<u64> {
        self.numbers@
    }

    /// All tokens the encoder will have written once the text is read.
    pub open spec fn expected(&self) -> Option<Seq<Tok>> {
        prepend(self.emitted(), lex_from(self.source(), self.position()))
    }

    pub closed spec fn wf(&self) -> bool {
        &&& self.cursor.wf()
        &&& self.cursor.data().len() <= MAX_INPUT
        &&& state_ok(self.parsed@, self.stack@, self.done@, payloads(self.numbers@))
        &&& self.next_number == num_count(self.done@)
        &&& self.next_number <= self.numbers@.len()
        &&& self.parsed@.len() + 9 * (self.cursor.data().len() - self.cursor.pos()) <= u32::MAX
    }

    pub fn new(json: String, numbers: Vec<u64>) -> (r: JSONParser)
        requires
            encode_utf8(json@).len() <= MAX_INPUT,
        ensures
            r.wf(),
            r.source() == encode_utf8(json@),
            r.numbers() == numbers@,
            r.expected() == lex(encode_utf8(json@)),
    {
        let bytes = slice_to_vec(json.as_str().as_bytes());
        let len = bytes.len();
        let r = Self::with_capacity(bytes, len, numbers);
        assert(Seq::<Tok>::empty() + lex(encode_utf8(json@))->0 =~= lex(encode_utf8(json@))->0);
        r
    }

    /// An encoder for a document that gets `id` as its `_id`: the text's
    /// first byte, which opens its object, is replaced by an object header and
    /// the pair `"_id":"<id>",`.
    pub fn new_with_id(id: String, json: String, numbers: Vec<u64>) -> (r: JSONParser)
        requires
            encode_utf8(json@).len() <= MAX_INPUT,
            encode_utf8(id@).len() <= MAX_INPUT,
        ensures
            r.wf(),
            r.source() == encode_utf8(json@),
            r.numbers() == numbers@,
            r.expected() == prepend(id_prefix(encode_utf8(id@)), lex_from(encode_utf8(json@), 1)),
    {
        let bytes = slice_to_vec(json.as_str().as_bytes());
        let idb = id.as_str().as_bytes();
        let capacity = bytes.len() + idb.len();
        let mut parser = Self::with_capacity(bytes, capacity, numbers);
        let ghost vals = payloads(numbers@);
        let ghost src = parser.cursor.data();

        let ghost out0 = parser.parsed@;
        parser.write_object_begin();
        proof {
            lemma_push_open(out0, Seq::empty(), Seq::empty(), vals, true);
        }
        let ghost st = parser.stack@;
        let ghost d1 = seq![Tok::ObjOpen];
        assert(Seq::<Tok>::empty().push(Tok::ObjOpen) =~= d1);

        let key: [u8; 3] = [0x5f, 0x69, 0x64];
        let ghost out1 = parser.parsed@;
        let ghost t2 = Tok::Str(key@);
        parser.write_string(&key);
        proof {
            lemma_push_scalar(out1, st, d1, vals, t2);
        }
        let ghost d2 = d1.push(t2);

        let ghost out2 = parser.parsed@;
        parser.write_tag(PAIR);
        assert(parser.parsed@ =~= out2 + tok_tson(Tok::Pair));
        proof {
            lemma_push_scalar(out2, st, d2, vals, Tok::Pair);
        }
        let ghost d3 = d2.push(Tok::Pair);

        let ghost out3 = parser.parsed@;
        let ghost t4 = Tok::Str(idb@);
        parser.write_string(idb);
        proof {
            lemma_push_scalar(out3, st, d3, vals, t4);
        }
        let ghost d4 = d3.push(t4);

        let ghost out4 = parser.parsed@;
        parser.write_tag(SEPARATOR);
        assert(parser.parsed@ =~= out4 + tok_tson(Tok::Sep));
        proof {
            lemma_push_scalar(out4, st, d4, vals, Tok::Sep);
        }
        let ghost d5 = d4.push(Tok::Sep);
        assert(key@ =~= seq![0x5fu8, 0x69u8, 0x64u8]);
        assert(d5 =~= id_prefix(idb@));
        proof {
            lemma_bind_push(d1, t2, vals);
            lemma_bind_push(d2, Tok::Pair, vals);
            lemma_bind_push(d3, t4, vals);
            lemma_bind_push(d4, Tok::Sep, vals);
            assert(Seq::<Tok>::empty().push(Tok::ObjOpen) =~= d1);
            lemma_bind_push(Seq::empty(), Tok::ObjOpen, vals);
            assert(num_count(Seq::<Tok>::empty()) == 0);
        }
        parser.done = Ghost(d5);

        if parser.cursor.get_index() < parser.cursor.get_value_ref().len() {
            parser.cursor.skip_by(1);
        }
        parser
    }

    fn with_capacity(json: Vec<u8>, capacity: usize, numbers: Vec<u64>) -> (r: JSONParser)
        requires
            json@.len() <= MAX_INPUT,
        ensures
            r.wf(),
            r.source() == json@,
            r.numbers() == numbers@,
            r.position() == 0,
            r.emitted() == Seq::<Tok>::empty(),
            r.parsed@ == Seq::<u8>::empty(),
            r.stack@ == Seq::<(usize, bool)>::empty(),
    {
        proof {
            lemma_state_empty(payloads(numbers@));
        }
        JSONParser {
            cursor: ValueCursor::new(json),
            parsed: Parsed::with_capacity(capacity),
            stack: Vec::new(),
            numbers,
            next_number: 0,
            done: Ghost(Seq::empty()),
        }
    }

    fn write_length(&mut self, length: u32)
        ensures
            final(self).parsed@ == old(self).parsed@ + le32(length),
            final(self).cursor == old(self).cursor,
            final(self).stack == old(self).stack,
            final(self).numbers == old(self).numbers,
            final(self).next_number == old(self).next_number,
            final(self).done == old(self).done,
    {
        let b = le32_bytes(length);
        self.parsed.write_slice(&b);
    }

    fn begin_collection(&mut self, obj: bool)
        requires
            old(self).parsed@.len() + 4 <= usize::MAX,
        ensures
            final(self).parsed@ == old(self).parsed@ + le32(0),
            final(self).stack@ == old(self).stack@.push(((old(self).parsed@.len() + 4) as usize, obj)),
            final(self).cursor == old(self).cursor,
            final(self).numbers == old(self).numbers,
            final(self).next_number == old(self).next_number,
            final(self).done == old(self).done,
    {
        self.write_length(0);
        let start = self.parsed.get_parsed_len();
        self.stack.push((start, obj));
    }

    /// Closes the innermost composite: its length field gets the number of
    /// bytes written after it.
    fn end_collection(&mut self)
        requires
            old(self).stack@.len() > 0,
            4 <= old(self).stack@.last().0 <= old(self).parsed@.len(),
            old(self).parsed@.len() <= u32::MAX,
        ensures
            ({
                let s = old(self).stack@.last().0 as int;
                let out = old(self).parsed@;
                final(self).parsed@ == out.subrange(0, s - 4) + le32((out.len() - s) as u32)
                    + out.subrange(s, out.len() as int)
            }),
            final(self).stack@ == old(self).stack@.drop_last(),
            final(self).cursor == old(self).cursor,
            final(self).numbers == old(self).numbers,
            final(self).next_number == old(self).next_number,
            final(self).done == old(self).done,
    {
        let top = self.stack.pop();
        let (start, _) = top.unwrap();
        let len = (self.parsed.get_parsed_len() - start) as u32;
        let b = le32_bytes(len);
        let ghost out = self.parsed@;
        self.parsed.rewrite_slice(start - 4, &b);
        assert(self.parsed@ =~= out.subrange(0, start - 4) + le32(len) + out.subrange(
            start as int,
            out.len() as int,
        ));
    }

    fn write_object_begin(&mut self)
        requires
            old(self).parsed@.len() + 5 <= usize::MAX,
        ensures
            final(self).parsed@ == old(self).parsed@ + tok_tson(Tok::ObjOpen),
            final(self).stack@ == old(self).stack@.push(((old(self).parsed@.len() + 5) as usize, true)),
            final(self).cursor == old(self).cursor,
            final(self).numbers == old(self).numbers,
            final(self).next_number == old(self).next_number,
            final(self).done == old(self).done,
    {
        self.parsed.write(OBJECT_BEGIN);
        self.begin_collection(true);
        proof {
            lemma_le32_zero();
        }
        assert(self.parsed@ =~= old(self).parsed@ + tok_tson(Tok::ObjOpen));
    }

    fn write_array_begin(&mut self)
        requires
            old(self).parsed@.len() + 5 <= usize::MAX,
        ensures
            final(self).parsed@ == old(self).parsed@ + tok_tson(Tok::ArrOpen),
            final(self).stack@ == old(self).stack@.push(((old(self).parsed@.len() + 5) as usize, false)),
            final(self).cursor == old(self).cursor,
            final(self).numbers == old(self).numbers,
            final(self).next_number == old(self).next_number,
            final(self).done == old(self).done,
    {
        self.parsed.write(ARRAY_BEGIN);
        self.begin_collection(false);
        proof {
            lemma_le32_zero();
        }
        assert(self.parsed@ =~= old(self).parsed@ + tok_tson(Tok::ArrOpen));
    }

    fn write_object_end(&mut self)
        requires
            old(self).stack@.len() > 0,
            old(self).stack@.last().1,
            4 <= old(self).stack@.last().0 <= old(self).parsed@.len(),
            old(self).parsed@.len() + 1 <= u32::MAX,
        ensures
            final(self).parsed@ == closed_out(old(self).parsed@, old(self).stack@),
            final(self).stack@ == old(self).stack@.drop_last(),
            final(self).cursor == old(self).cursor,
            final(self).numbers == old(self).numbers,
            final(self).next_number == old(self).next_number,
            final(self).done == old(self).done,
    {
        self.parsed.write(OBJECT_END);
        self.end_collection();
    }

    fn write_array_end(&mut self)
        requires
            old(self).stack@.len() > 0,
            !old(self).stack@.last().1,
            4 <= old(self).stack@.last().0 <= old(self).parsed@.len(),
            old(self).parsed@.len() + 1 <= u32::MAX,
        ensures
            final(self).parsed@ == closed_out(old(self).parsed@, old(self).stack@),
            final(self).stack@ == old(self).stack@.drop_last(),
            final(self).cursor == old(self).cursor,
            final(self).numbers == old(self).numbers,
            final(self).next_number == old(self).next_number,
            final(self).done == old(self).done,
    {
        self.parsed.write(ARRAY_END);
        self.end_collection();
    }

    fn write_string(&mut self, string: &[u8])
        requires
            string@.len() <= u32::MAX,
        ensures
            final(self).parsed@ == old(self).parsed@ + tok_tson(Tok::Str(string@)),
            final(self).stack == old(self).stack,
            final(self).cursor == old(self).cursor,
            final(self).numbers == old(self).numbers,
            final(self).next_number == old(self).next_number,
            final(self).done == old(self).done,
    {
        self.parsed.write(STRING);
        self.write_length(string.len() as u32);
        self.parsed.write_slice(string);
        assert(self.parsed@ =~= old(self).parsed@ + tok_tson(Tok::Str(string@)));
    }

    fn write_number(&mut self, bits: u64)
        ensures
            final(self).parsed@ == old(self).parsed@ + tok_tson(Tok::Num(le64(bits))),
            final(self).stack == old(self).stack,
            final(self).cursor == old(self).cursor,
            final(self).numbers == old(self).numbers,
            final(self).next_number == old(self).next_number,
            final(self).done == old(self).done,
    {
        self.parsed.write(NUMBER);
        let b = le64_bytes(bits);
        self.parsed.write_slice(&b);
        assert(self.parsed@ =~= old(self).parsed@ + tok_tson(Tok::Num(le64(bits))));
    }

    /// Writes a token that is one tag byte.
    fn write_tag(&mut self, tag: u8)
        ensures
            final(self).parsed@ == old(self).parsed@.push(tag),
            final(self).stack == old(self).stack,
            final(self).cursor == old(self).cursor,
            final(self).numbers == old(self).numbers,
            final(self).next_number == old(self).next_number,
            final(self).done == old(self).done,
    {
        self.parsed.write(tag);
    }

    /// Reads one token and writes it.
    fn parse_next(&mut self) -> (r: Result<(), DbError>)
        requires
            old(self).wf(),
            old(self).position() < old(self).source().len(),
        ensures
            r is Ok ==> {
                &&& final(self).wf()
                &&& final(self).expected() == old(self).expected()
                &&& final(self).source() == old(self).source()
                &&& final(self).numbers() == old(self).numbers()
                &&& final(self).position() > old(self).position()
            },
            r is Err ==> r == Err::<(), DbError>(DbError::MalformedJson) && !accepted(
                old(self).expected(),
                old(self).numbers(),
            ),
    {
        let ghost i = self.cursor.pos();
        let ghost src = self.cursor.data();
        let ghost out = self.parsed@;
        let ghost st = self.stack@;
        let ghost done = self.done@;
        let ghost vals = payloads(self.numbers@);
        let lexeme = next_lexeme(&mut self.cursor);
        let l = match lexeme {
            None => {
                return Err(DbError::MalformedJson);
            },
            Some(l) => l,
        };
        let ghost t = l@;
        let ghost j = self.cursor.pos();
        assert(lex_from(src, i) == prepend(seq![t], lex_from(src, j)));
        proof {
            lemma_prepend_step(done, t, lex_from(src, j));
            lemma_bind_push(done, t, vals);
        }
        match l {
            Lexeme::ObjOpen => {
                self.write_object_begin();
                proof {
                    lemma_push_open(out, st, done, vals, true);
                }
            },
            Lexeme::ArrOpen => {
                self.write_array_begin();
                proof {
                    lemma_push_open(out, st, done, vals, false);
                }
            },
            Lexeme::ObjClose => {
                let n = self.stack.len();
                if n == 0 || !self.stack[n - 1].1 {
                    proof {
                        self.lemma_mismatch(done, t, lex_from(src, j));
                    }
                    return Err(DbError::MalformedJson);
                }
                assert(st[n - 1] == st.last());
                self.write_object_end();
                proof {
                    lemma_push_close(out, st, done, vals);
                }
            },
            Lexeme::ArrClose => {
                let n = self.stack.len();
                if n == 0 || self.stack[n - 1].1 {
                    proof {
                        self.lemma_mismatch(done, t, lex_from(src, j));
                    }
                    return Err(DbError::MalformedJson);
                }
                assert(st[n - 1] == st.last());
                self.write_array_end();
                proof {
                    lemma_push_close(out, st, done, vals);
                }
            },
            Lexeme::Str(v) => {
                proof {
                    lemma_string_end_range(src, i + 1);
                    lemma_number_end_range(src, i);
                }
                assert(src[i] == JSON_QUOTE);
                assert(v@ == src.subrange(i + 1, j - 1));
                assert(v@.len() <= src.len());
                self.write_string(v.as_slice());
                proof {
                    lemma_push_scalar(out, st, done, vals, t);
                }
            },
            Lexeme::Num(_) => {
                if self.next_number >= self.numbers.len() {
                    proof {
                        if let Some(rest) = lex_from(src, j) {
                            lemma_num_count_concat(done.push(t), rest);
                        }
                    }
                    return Err(DbError::MalformedJson);
                }
                let bits = self.numbers[self.next_number];
                self.write_number(bits);
                self.next_number = self.next_number + 1;
                proof {
                    lemma_push_scalar(out, st, done, vals, t);
                }
            },
            Lexeme::True => {
                self.write_tag(TRUE);
                assert(self.parsed@ =~= out + tok_tson(t));
                proof {
                    lemma_push_scalar(out, st, done, vals, t);
                }
            },
            Lexeme::False => {
                self.write_tag(FALSE);
                assert(self.parsed@ =~= out + tok_tson(t));
                proof {
                    lemma_push_scalar(out, st, done, vals, t);
                }
            },
            Lexeme::Null => {
                self.write_tag(NULL);
                assert(self.parsed@ =~= out + tok_tson(t));
                proof {
                    lemma_push_scalar(out, st, done, vals, t);
                }
            },
            Lexeme::Pair => {
                self.write_tag(PAIR);
                assert(self.parsed@ =~= out + tok_tson(t));
                proof {
                    lemma_push_scalar(out, st, done, vals, t);
                }
            },
            Lexeme::Sep => {
                self.write_tag(SEPARATOR);
                assert(self.parsed@ =~= out + tok_tson(t));
                proof {
                    lemma_push_scalar(out, st, done, vals, t);
                }
            },
        }
        self.done = Ghost(done.push(t));
        Ok(())
    }

    /// A closing token that does not match the innermost open composite.
    proof fn lemma_mismatch(&self, done: Seq<Tok>, t: Tok, rest: Option<Seq<Tok>>)
        requires
            self.wf(),
            done == self.done@,
            t is ObjClose || t is ArrClose,
            self.stack@.len() == 0 || self.stack@.last().1 != (t is ObjClose),
        ensures
            !accepted(prepend(done.push(t), rest), self.numbers@),
    {
        let st = self.stack@;
        assert(done.push(t).drop_last() =~= done);
        if st.len() > 0 {
            assert(kinds(st).last() == st.last().1);
        }
        assert(stack_after(done.push(t)) is None);
        if let Some(r) = rest {
            lemma_stack_after_none(done.push(t), r);
        }
    }

    /// Transcodes the whole text. On success the output reads back as the
    /// text's tokens, numbers bound to their values, and is framed; framed
    /// TSON with given tokens is unique (`lemma_framed_unique`), so this fixes
    /// every byte. It fails exactly when the text does not read as tokens, a
    /// composite is closed by the wrong kind or left open, or the count of
    /// number values differs from the count of numbers.
    pub fn parse(self) -> (r: Result<Vec<u8>, DbError>)
        requires
            self.wf(),
        ensures
            accepted(self.expected(), self.numbers()) ==> {
                &&& r is Ok
                &&& tson_tokens(r->Ok_0@) == Some(bind_nums(self.expected()->0, payloads(self.numbers())))
                &&& framed(r->Ok_0@)
            },
            !accepted(self.expected(), self.numbers()) ==> r == Err::<Vec<u8>, DbError>(
                DbError::MalformedJson,
            ),
    {
        let mut p = self;
        while p.cursor.get_index() < p.cursor.get_value_ref().len()
            invariant
                p.wf(),
                p.expected() == self.expected(),
                p.numbers() == self.numbers(),
                p.source() == self.source(),
            decreases p.source().len() - p.position(),
        {
            match p.parse_next() {
                Ok(()) => {},
                Err(e) => {
                    return Err(e);
                },
            }
        }
        let ghost done = p.done@;
        assert(done + Seq::<Tok>::empty() =~= done);
        if p.stack.len() != 0 || p.next_number != p.numbers.len() {
            assert(p.stack.len() != 0 ==> kinds(p.stack@).len() != 0);
            return Err(DbError::MalformedJson);
        }
        assert(kinds(p.stack@) =~= Seq::<bool>::empty());
        assert(segment(p.parsed@, p.stack@, 0) =~= p.parsed@);
        Ok(p.parsed.get_parsed())
    }
}

} // verus!
