//! The token model shared by the codec: what a TSON byte string holds, how a
//! token is written in TSON and in JSON, and how composites are framed.

use vstd::prelude::*;
use crate::tags::{
    le32, le32_at, lemma_le32_round_trip, ARRAY_BEGIN, ARRAY_END, FALSE, JSON_ARRAY_BEGIN,
    JSON_ARRAY_END, JSON_OBJECT_BEGIN, JSON_OBJECT_END, JSON_PAIR, JSON_QUOTE, JSON_SEPARATOR, NULL,
    NUMBER, OBJECT_BEGIN, OBJECT_END, PAIR, SEPARATOR, STRING, TRUE,
};

verus! {

/// One token of a document. In JSON text a number holds its literal text; in
/// TSON it holds the eight little-endian bytes of its bit pattern.
pub enum Tok {
    ObjOpen,
    ObjClose,
    ArrOpen,
    ArrClose,
    Str(Seq<u8>),
    Num(Seq<u8>),
    True,
    False,
    Null,
    Pair,
    Sep,
}

/// The first TSON token of `s` and the number of bytes it takes. The length
/// field of a composite is skipped, whatever it holds.
pub open spec fn tson_token(s: Seq<u8>) -> Option<(Tok, int)> {
    if s.len() == 0 {
        None
    } else if s[0] == OBJECT_BEGIN || s[0] == ARRAY_BEGIN {
        if s.len() >= 5 {
            Some((if s[0] == OBJECT_BEGIN { Tok::ObjOpen } else { Tok::ArrOpen }, 5))
        } else {
            None
        }
    } else if s[0] == STRING {
        if s.len() >= 5 && 5 + le32_at(s, 1) <= s.len() {
            Some((Tok::Str(s.subrange(5, 5 + le32_at(s, 1))), 5 + le32_at(s, 1)))
        } else {
            None
        }
    } else if s[0] == NUMBER {
        if s.len() >= 9 {
            Some((Tok::Num(s.subrange(1, 9)), 9))
        } else {
            None
        }
    } else if s[0] == OBJECT_END {
        Some((Tok::ObjClose, 1))
    } else if s[0] == ARRAY_END {
        Some((Tok::ArrClose, 1))
    } else if s[0] == TRUE {
        Some((Tok::True, 1))
    } else if s[0] == FALSE {
        Some((Tok::False, 1))
    } else if s[0] == NULL {
        Some((Tok::Null, 1))
    } else if s[0] == PAIR {
        Some((Tok::Pair, 1))
    } else if s[0] == SEPARATOR {
        Some((Tok::Sep, 1))
    } else {
        None
    }
}

/// The byte length of the first TSON token of `s`, or 0.
pub open spec fn token_size(s: Seq<u8>) -> int {
    match tson_token(s) {
        Some((_, n)) => n,
        None => 0,
    }
}

/// `a` followed by what `o` holds, if it holds anything.
pub open spec fn prepend(a: Seq<Tok>, o: Option<Seq<Tok>>) -> Option<Seq<Tok>> {
    match o {
        Some(r) => Some(a + r),
        None => None,
    }
}

/// The tokens of a TSON byte string, if it is a sequence of whole tokens.
pub open spec fn tson_tokens(s: Seq<u8>) -> Option<Seq<Tok>>
    decreases s.len(),
{
    if s.len() == 0 {
        Some(Seq::empty())
    } else {
        match tson_token(s) {
            Some((t, n)) => if 0 < n <= s.len() {
                prepend(seq![t], tson_tokens(s.subrange(n, s.len() as int)))
            } else {
                None
            },
            None => None,
        }
    }
}

/// A token written as TSON; a composite's length field is left at zero.
pub open spec fn tok_tson(t: Tok) -> Seq<u8> {
    match t {
        Tok::ObjOpen => seq![OBJECT_BEGIN, 0u8, 0u8, 0u8, 0u8],
        Tok::ArrOpen => seq![ARRAY_BEGIN, 0u8, 0u8, 0u8, 0u8],
        Tok::ObjClose => seq![OBJECT_END],
        Tok::ArrClose => seq![ARRAY_END],
        Tok::Str(b) => seq![STRING] + le32(b.len() as u32) + b,
        Tok::Num(b) => seq![NUMBER] + b,
        Tok::True => seq![TRUE],
        Tok::False => seq![FALSE],
        Tok::Null => seq![NULL],
        Tok::Pair => seq![PAIR],
        Tok::Sep => seq![SEPARATOR],
    }
}

/// A token written as JSON text.
pub open spec fn tok_json(t: Tok) -> Seq<u8> {
    match t {
        Tok::ObjOpen => seq![JSON_OBJECT_BEGIN],
        Tok::ArrOpen => seq![JSON_ARRAY_BEGIN],
        Tok::ObjClose => seq![JSON_OBJECT_END],
        Tok::ArrClose => seq![JSON_ARRAY_END],
        Tok::Str(b) => seq![JSON_QUOTE] + b + seq![JSON_QUOTE],
        Tok::Num(b) => b,
        Tok::True => seq![0x74u8, 0x72u8, 0x75u8, 0x65u8],
        Tok::False => seq![0x66u8, 0x61u8, 0x6cu8, 0x73u8, 0x65u8],
        Tok::Null => seq![0x6eu8, 0x75u8, 0x6cu8, 0x6cu8],
        Tok::Pair => seq![JSON_PAIR],
        Tok::Sep => seq![JSON_SEPARATOR],
    }
}

/// Tokens written as JSON text, one after another.
pub open spec fn json_text(toks: Seq<Tok>) -> Seq<u8>
    decreases toks.len(),
{
    if toks.len() == 0 {
        Seq::empty()
    } else {
        json_text(toks.drop_last()) + tok_json(toks.last())
    }
}

/// How many number tokens `toks` holds.
pub open spec fn num_count(toks: Seq<Tok>) -> nat
    decreases toks.len(),
{
    if toks.len() == 0 {
        0
    } else {
        num_count(toks.drop_last()) + if toks.last() is Num {
            1nat
        } else {
            0nat
        }
    }
}

/// `toks` with the payload of its k-th number token replaced by `vals[k]`.
pub open spec fn bind_nums(toks: Seq<Tok>, vals: Seq<Seq<u8>>) -> Seq<Tok>
    decreases toks.len(),
{
    if toks.len() == 0 {
        Seq::empty()
    } else {
        bind_nums(toks.drop_last(), vals).push(
            if toks.last() is Num {
                Tok::Num(vals[num_count(toks.drop_last()) as int])
            } else {
                toks.last()
            },
        )
    }
}

/// The payloads of the number tokens of `toks`, in order.
pub open spec fn num_payloads(toks: Seq<Tok>) -> Seq<Seq<u8>>
    decreases toks.len(),
{
    if toks.len() == 0 {
        Seq::empty()
    } else {
        match toks.last() {
            Tok::Num(b) => num_payloads(toks.drop_last()).push(b),
            _ => num_payloads(toks.drop_last()),
        }
    }
}

/// The open composites after `toks`, innermost last (`true` for an object),
/// or `None` where a closing token does not match.
pub open spec fn stack_after(toks: Seq<Tok>) -> Option<Seq<bool>>
    decreases toks.len(),
{
    if toks.len() == 0 {
        Some(Seq::empty())
    } else {
        match stack_after(toks.drop_last()) {
            Some(st) => match toks.last() {
                Tok::ObjOpen => Some(st.push(true)),
                Tok::ArrOpen => Some(st.push(false)),
                Tok::ObjClose => if st.len() > 0 && st.last() {
                    Some(st.drop_last())
                } else {
                    None
                },
                Tok::ArrClose => if st.len() > 0 && !st.last() {
                    Some(st.drop_last())
                } else {
                    None
                },
                _ => Some(st),
            },
            None => None,
        }
    }
}

/// Every composite of `toks` is closed by the matching token.
pub open spec fn balanced(toks: Seq<Tok>) -> bool {
    stack_after(toks) == Some(Seq::<bool>::empty())
}

/// The closing tag of a composite that opens with `tag`.
pub open spec fn closing(tag: u8) -> u8 {
    if tag == OBJECT_BEGIN {
        OBJECT_END
    } else {
        ARRAY_END
    }
}

/// The byte length of the whole TSON value at the start of `s`, or -1. A
/// composite's length field counts the bytes after it up to and including
/// the matching end tag, and its contents are framed in turn.
pub open spec fn element_len(s: Seq<u8>) -> int
    decreases s.len(), 0int,
{
    if s.len() == 0 {
        -1
    } else if s[0] == OBJECT_BEGIN || s[0] == ARRAY_BEGIN {
        if s.len() >= 5 {
            let l = le32_at(s, 1) as int;
            if 1 <= l && 5 + l <= s.len() && s[4 + l] == closing(s[0]) && framed(
                s.subrange(5, 4 + l),
            ) {
                5 + l
            } else {
                -1
            }
        } else {
            -1
        }
    } else if s[0] == STRING {
        if s.len() >= 5 && 5 + le32_at(s, 1) <= s.len() {
            5 + le32_at(s, 1)
        } else {
            -1
        }
    } else if s[0] == NUMBER {
        if s.len() >= 9 {
            9
        } else {
            -1
        }
    } else if s[0] == TRUE || s[0] == FALSE || s[0] == NULL || s[0] == PAIR || s[0]
        == SEPARATOR {
        1
    } else {
        -1
    }
}

/// `s` is a sequence of whole TSON values, every composite among them
/// carrying the exact length of its contents.
pub open spec fn framed(s: Seq<u8>) -> bool
    decreases s.len(), 1int,
{
    if s.len() == 0 {
        true
    } else {
        let n = element_len(s);
        0 < n <= s.len() && framed(s.subrange(n, s.len() as int))
    }
}

/// A token that stands on its own in TSON: neither an open nor a close, and
/// of a size that TSON can write.
pub open spec fn scalar_tok(t: Tok) -> bool {
    match t {
        Tok::Str(b) => b.len() <= u32::MAX,
        Tok::Num(b) => b.len() == 8,
        Tok::True | Tok::False | Tok::Null | Tok::Pair | Tok::Sep => true,
        _ => false,
    }
}

proof fn lemma_tson_token_prefix(s: Seq<u8>, u: Seq<u8>)
    requires
        tson_token(s) is Some,
        token_size(s) <= s.len(),
    ensures
        tson_token(s + u) == tson_token(s),
{
    let su = s + u;
    assert(su[0] == s[0]);
    if s[0] == STRING {
        assert(su[1] == s[1] && su[2] == s[2] && su[3] == s[3] && su[4] == s[4]);
        assert(su.subrange(5, 5 + le32_at(s, 1)) =~= s.subrange(5, 5 + le32_at(s, 1)));
    } else if s[0] == NUMBER {
        assert(su.subrange(1, 9) =~= s.subrange(1, 9));
    }
}

/// Reading the tokens of `a + b` reads those of `a`, then those of `b`.
pub proof fn lemma_tson_tokens_concat(a: Seq<u8>, b: Seq<u8>)
    requires
        tson_tokens(a) is Some,
    ensures
        tson_tokens(a + b) == prepend(tson_tokens(a)->0, tson_tokens(b)),
    decreases a.len(),
{
    if a.len() == 0 {
        assert(a + b =~= b);
        assert(tson_tokens(a)->0 =~= Seq::<Tok>::empty());
        match tson_tokens(b) {
            Some(r) => assert(Seq::<Tok>::empty() + r =~= r),
            None => {},
        }
    } else {
        let (t, n) = tson_token(a)->0;
        lemma_tson_token_prefix(a, b);
        let ab = a + b;
        assert(ab.subrange(n, ab.len() as int) =~= a.subrange(n, a.len() as int) + b);
        lemma_tson_tokens_concat(a.subrange(n, a.len() as int), b);
        let ra = tson_tokens(a.subrange(n, a.len() as int))->0;
        match tson_tokens(b) {
            Some(r) => assert(seq![t] + (ra + r) =~= (seq![t] + ra) + r),
            None => {},
        }
    }
}

/// A lone token reads back as itself.
pub proof fn lemma_tok_tson_reads(t: Tok)
    requires
        scalar_tok(t) || t is ObjOpen || t is ArrOpen || t is ObjClose || t is ArrClose,
    ensures
        tson_tokens(tok_tson(t)) == Some(seq![t]),
{
    let s = tok_tson(t);
    if let Tok::Str(b) = t {
        lemma_le32_round_trip(b.len() as u32);
        assert(le32_at(s, 1) == le32_at(le32(b.len() as u32), 0));
        assert(s.subrange(5, 5 + b.len() as int) =~= b);
    } else if let Tok::Num(b) = t {
        assert(s.subrange(1, 9) =~= b);
    }
    assert(tson_token(s) == Some((t, s.len() as int)));
    assert(s.subrange(s.len() as int, s.len() as int) =~= Seq::<u8>::empty());
    assert(tson_tokens(Seq::<u8>::empty()) == Some(Seq::<Tok>::empty()));
    assert(seq![t] + Seq::<Tok>::empty() =~= seq![t]);
}

/// A lone scalar token is one whole TSON value.
pub proof fn lemma_tok_tson_framed(t: Tok)
    requires
        scalar_tok(t),
    ensures
        element_len(tok_tson(t)) == tok_tson(t).len(),
        framed(tok_tson(t)),
{
    let s = tok_tson(t);
    if let Tok::Str(b) = t {
        lemma_le32_round_trip(b.len() as u32);
        assert(le32_at(s, 1) == le32_at(le32(b.len() as u32), 0));
    }
    assert(element_len(s) == s.len());
    assert(framed(Seq::<u8>::empty()));
    assert(s.subrange(s.len() as int, s.len() as int) =~= Seq::<u8>::empty());
}

proof fn lemma_element_len_prefix(s: Seq<u8>, u: Seq<u8>)
    requires
        0 < element_len(s) <= s.len(),
    ensures
        element_len(s + u) == element_len(s),
{
    let su = s + u;
    assert(su[0] == s[0]);
    if s.len() >= 5 {
        assert(su[1] == s[1] && su[2] == s[2] && su[3] == s[3] && su[4] == s[4]);
    }
    if s[0] == OBJECT_BEGIN || s[0] == ARRAY_BEGIN {
        let l = le32_at(s, 1) as int;
        assert(su[4 + l] == s[4 + l]);
        assert(su.subrange(5, 4 + l) =~= s.subrange(5, 4 + l));
    }
}

/// Two framed byte strings, one after the other, are framed.
pub proof fn lemma_framed_concat(a: Seq<u8>, b: Seq<u8>)
    requires
        framed(a),
        framed(b),
    ensures
        framed(a + b),
    decreases a.len(),
{
    if a.len() == 0 {
        assert(a + b =~= b);
    } else {
        let n = element_len(a);
        lemma_element_len_prefix(a, b);
        let ab = a + b;
        assert(ab.subrange(n, ab.len() as int) =~= a.subrange(n, a.len() as int) + b);
        lemma_framed_concat(a.subrange(n, a.len() as int), b);
    }
}

/// A composite made of a header, framed contents and the matching end tag is
/// one whole TSON value.
pub proof fn lemma_composite_framed(tag: u8, body: Seq<u8>)
    requires
        tag == OBJECT_BEGIN || tag == ARRAY_BEGIN,
        framed(body),
        body.len() + 1 <= u32::MAX,
    ensures
        element_len(seq![tag] + le32((body.len() + 1) as u32) + body + seq![closing(tag)])
            == body.len() + 6,
        framed(seq![tag] + le32((body.len() + 1) as u32) + body + seq![closing(tag)]),
{
    let l = (body.len() + 1) as u32;
    let e = seq![tag] + le32(l) + body + seq![closing(tag)];
    lemma_le32_round_trip(l);
    assert(le32_at(e, 1) == le32_at(le32(l), 0));
    assert(e.subrange(5, 4 + l) =~= body);
    assert(e[4 + l] == closing(tag));
    assert(element_len(e) == body.len() + 6);
    assert(framed(Seq::<u8>::empty()));
    assert(e.subrange(e.len() as int, e.len() as int) =~= Seq::<u8>::empty());
}

/// Once a closing token fails to match, no later tokens mend it.
pub proof fn lemma_stack_after_none(a: Seq<Tok>, b: Seq<Tok>)
    requires
        stack_after(a) is None,
    ensures
        stack_after(a + b) is None,
    decreases b.len(),
{
    if b.len() == 0 {
        assert(a + b =~= a);
    } else {
        lemma_stack_after_none(a, b.drop_last());
        assert((a + b).drop_last() =~= a + b.drop_last());
    }
}

/// Numbers are counted across a concatenation.
pub proof fn lemma_num_count_concat(a: Seq<Tok>, b: Seq<Tok>)
    ensures
        num_count(a + b) == num_count(a) + num_count(b),
    decreases b.len(),
{
    if b.len() == 0 {
        assert(a + b =~= a);
    } else {
        lemma_num_count_concat(a, b.drop_last());
        assert((a + b).drop_last() =~= a + b.drop_last());
    }
}

/// In a framed byte string, a composite's length field counts exactly the
/// bytes after the field up to and including its matching end tag; its
/// contents, and what follows it, are framed in turn.
pub proof fn lemma_framed_composite(s: Seq<u8>)
    requires
        framed(s),
        s.len() > 0,
        s[0] == OBJECT_BEGIN || s[0] == ARRAY_BEGIN,
    ensures
        ({
            let l = le32_at(s, 1) as int;
            &&& 1 <= l
            &&& 5 + l <= s.len()
            &&& s[4 + l] == closing(s[0])
            &&& framed(s.subrange(5, 4 + l))
            &&& framed(s.subrange(5 + l, s.len() as int))
        }),
{
    let n = element_len(s);
    assert(0 < n <= s.len());
    assert(n == 5 + le32_at(s, 1) as int);
}

} // verus!
