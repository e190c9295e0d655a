//! Framed TSON is determined by its tokens: the length fields hold no choice.

use vstd::prelude::*;
use crate::tags::{le32, le32_at, le32_value, ARRAY_BEGIN, ARRAY_END, OBJECT_BEGIN, OBJECT_END};
use crate::tokens::{
    closing, element_len, framed, lemma_tson_tokens_concat, prepend, tok_tson, tson_token,
    tson_tokens, Tok,
};

verus! {

/// How a token changes the nesting depth.
pub open spec fn tok_depth(t: Tok) -> int {
    match t {
        Tok::ObjOpen | Tok::ArrOpen => 1,
        Tok::ObjClose | Tok::ArrClose => -1,
        _ => 0,
    }
}

/// The nesting depth after `x`.
pub open spec fn depth(x: Seq<Tok>) -> int
    decreases x.len(),
{
    if x.len() == 0 {
        0
    } else {
        depth(x.drop_last()) + tok_depth(x.last())
    }
}

/// Every composite that `x` opens it also closes, and no prefix of `x`
/// closes more than it opened.
pub open spec fn nested(x: Seq<Tok>) -> bool {
    &&& depth(x) == 0
    &&& forall|k: int| 0 <= k <= x.len() ==> depth(#[trigger] x.subrange(0, k)) >= 0
}

proof fn lemma_depth_concat(x: Seq<Tok>, y: Seq<Tok>)
    ensures
        depth(x + y) == depth(x) + depth(y),
    decreases y.len(),
{
    if y.len() == 0 {
        assert(x + y =~= x);
    } else {
        lemma_depth_concat(x, y.drop_last());
        assert((x + y).drop_last() =~= x + y.drop_last());
    }
}

proof fn lemma_nested_concat(x: Seq<Tok>, y: Seq<Tok>)
    requires
        nested(x),
        nested(y),
    ensures
        nested(x + y),
{
    lemma_depth_concat(x, y);
    assert forall|k: int| 0 <= k <= (x + y).len() implies depth(#[trigger] (x + y).subrange(0, k))
        >= 0 by {
        if k <= x.len() {
            assert((x + y).subrange(0, k) =~= x.subrange(0, k));
        } else {
            assert((x + y).subrange(0, k) =~= x + y.subrange(0, k - x.len()));
            lemma_depth_concat(x, y.subrange(0, k - x.len()));
            assert(depth(y.subrange(0, k - x.len())) >= 0);
        }
    }
}

proof fn lemma_nested_wrap(o: Tok, x: Seq<Tok>, c: Tok)
    requires
        nested(x),
        tok_depth(o) == 1,
        tok_depth(c) == -1,
    ensures
        nested(seq![o] + x + seq![c]),
{
    let w = seq![o] + x + seq![c];
    lemma_depth_concat(seq![o], x);
    lemma_depth_concat(seq![o] + x, seq![c]);
    assert(seq![o].drop_last() =~= Seq::<Tok>::empty());
    assert(seq![c].drop_last() =~= Seq::<Tok>::empty());
    assert(depth(Seq::<Tok>::empty()) == 0);
    assert(depth(seq![o]) == 1);
    assert(depth(seq![c]) == -1);
    assert(depth(w) == 0);
    assert forall|k: int| 0 <= k <= w.len() implies depth(#[trigger] w.subrange(0, k)) >= 0 by {
        if k == 0 {
            assert(w.subrange(0, k) =~= Seq::<Tok>::empty());
        } else if k <= x.len() + 1 {
            assert(w.subrange(0, k) =~= seq![o] + x.subrange(0, k - 1));
            lemma_depth_concat(seq![o], x.subrange(0, k - 1));
            assert(depth(x.subrange(0, k - 1)) >= 0);
        } else {
            assert(w.subrange(0, k) =~= w);
        }
    }
    assert(nested(w));
}

/// In two equal token sequences, each a nested run followed by a closing
/// token, the runs have the same length.
proof fn lemma_split_unique(x: Seq<Tok>, c: Tok, y: Seq<Tok>, x2: Seq<Tok>, c2: Tok, y2: Seq<Tok>)
    requires
        nested(x),
        nested(x2),
        tok_depth(c) == -1,
        tok_depth(c2) == -1,
        x + seq![c] + y == x2 + seq![c2] + y2,
    ensures
        x.len() == x2.len(),
{
    let z = x + seq![c] + y;
    if x.len() < x2.len() {
        assert(x2.subrange(0, x.len() as int + 1) =~= z.subrange(0, x.len() as int + 1));
        assert(z.subrange(0, x.len() as int + 1) =~= x.push(c));
        assert(x.push(c).drop_last() =~= x);
        assert(depth(x2.subrange(0, x.len() as int + 1)) >= 0);
    } else if x2.len() < x.len() {
        let z2 = x2 + seq![c2] + y2;
        assert(x.subrange(0, x2.len() as int + 1) =~= z2.subrange(0, x2.len() as int + 1));
        assert(z2.subrange(0, x2.len() as int + 1) =~= x2.push(c2));
        assert(x2.push(c2).drop_last() =~= x2);
        assert(depth(x.subrange(0, x2.len() as int + 1)) >= 0);
    }
}

proof fn lemma_le32_bytes(b0: u8, b1: u8, b2: u8, b3: u8)
    ensures
        le32(le32_value(b0, b1, b2, b3)) == seq![b0, b1, b2, b3],
{
    let v = le32_value(b0, b1, b2, b3);
    assert((v & 0xff) as u8 == b0 && ((v >> 8u32) & 0xff) as u8 == b1 && ((v >> 16u32) & 0xff) as u8
        == b2 && ((v >> 24u32) & 0xff) as u8 == b3) by (bit_vector)
        requires
            v == (b0 as u32) | ((b1 as u32) << 8u32) | ((b2 as u32) << 16u32) | ((b3 as u32) << 24u32),
    ;
    assert(le32(v) =~= seq![b0, b1, b2, b3]);
}

/// The parts of a framed byte string: its first value, and the rest.
proof fn lemma_framed_tokens(s: Seq<u8>)
    requires
        framed(s),
    ensures
        tson_tokens(s) is Some,
        nested(tson_tokens(s)->0),
        s.len() > 0 ==> tson_tokens(s)->0.len() > 0,
    decreases s.len(),
{
    if s.len() == 0 {
        assert(Seq::<Tok>::empty().subrange(0, 0) =~= Seq::<Tok>::empty());
    } else {
        let n = element_len(s);
        let e = s.subrange(0, n);
        let rest = s.subrange(n, s.len() as int);
        assert(s =~= e + rest);
        lemma_framed_tokens(rest);
        lemma_element_tokens(s);
        lemma_tson_tokens_concat(e, rest);
        lemma_nested_concat(tson_tokens(e)->0, tson_tokens(rest)->0);
    }
}

/// The tokens of the first value of a framed byte string.
proof fn lemma_element_tokens(s: Seq<u8>)
    requires
        framed(s),
        s.len() > 0,
    ensures
        tson_tokens(s.subrange(0, element_len(s))) is Some,
        nested(tson_tokens(s.subrange(0, element_len(s)))->0),
        tson_tokens(s.subrange(0, element_len(s)))->0.len() > 0,
        !(s[0] == OBJECT_BEGIN || s[0] == ARRAY_BEGIN) ==> tson_token(s.subrange(0, element_len(s)))
            == Some((tson_tokens(s.subrange(0, element_len(s)))->0[0], element_len(s))),
        !(s[0] == OBJECT_BEGIN || s[0] == ARRAY_BEGIN) ==> tson_tokens(s.subrange(0, element_len(s)))->0.len() == 1,
        s[0] == OBJECT_BEGIN || s[0] == ARRAY_BEGIN ==> {
            let l = le32_at(s, 1) as int;
            let inner = s.subrange(5, 4 + l);
            &&& framed(inner)
            &&& tson_tokens(inner) is Some
            &&& tson_tokens(s.subrange(0, element_len(s)))->0 == seq![
                if s[0] == OBJECT_BEGIN { Tok::ObjOpen } else { Tok::ArrOpen },
            ] + tson_tokens(inner)->0 + seq![
                if s[0] == OBJECT_BEGIN { Tok::ObjClose } else { Tok::ArrClose },
            ]
        },
    decreases s.len(), 0int,
{
    let n = element_len(s);
    let e = s.subrange(0, n);
    assert(e[0] == s[0]);
    if s[0] == OBJECT_BEGIN || s[0] == ARRAY_BEGIN {
        let l = le32_at(s, 1) as int;
        let inner = s.subrange(5, 4 + l);
        lemma_framed_tokens(inner);
        let o = if s[0] == OBJECT_BEGIN { Tok::ObjOpen } else { Tok::ArrOpen };
        let c = if s[0] == OBJECT_BEGIN { Tok::ObjClose } else { Tok::ArrClose };
        let end = seq![closing(s[0])];
        assert(tson_token(e) == Some((o, 5int)));
        assert(e.subrange(5, e.len() as int) =~= inner + end);
        assert(tson_token(end) == Some((c, 1int)));
        assert(end.subrange(1, 1) =~= Seq::<u8>::empty());
        assert(tson_tokens(Seq::<u8>::empty()) == Some(Seq::<Tok>::empty()));
        assert(seq![c] + Seq::<Tok>::empty() =~= seq![c]);
        assert(tson_tokens(end) == Some(seq![c]));
        lemma_tson_tokens_concat(inner, end);
        let ti = tson_tokens(inner)->0;
        assert(seq![o] + (ti + seq![c]) =~= seq![o] + ti + seq![c]);
        lemma_nested_wrap(o, ti, c);
    } else {
        let (t, m) = tson_token(e)->0;
        assert(m == n);
        assert(e.subrange(n, e.len() as int) =~= Seq::<u8>::empty());
        assert(tson_tokens(Seq::<u8>::empty()) == Some(Seq::<Tok>::empty()));
        assert(seq![t] + Seq::<Tok>::empty() =~= seq![t]);
        assert(seq![t].subrange(0, 0) =~= Seq::<Tok>::empty());
        assert(seq![t].subrange(0, 1) =~= seq![t]);
        assert(seq![t].drop_last() =~= Seq::<Tok>::empty());
        assert(tok_depth(t) == 0);
        assert(depth(Seq::<Tok>::empty()) == 0);
        assert(depth(seq![t]) == 0);
        assert(nested(seq![t]));
    }
}

/// A lone scalar value is written one way only.
proof fn lemma_scalar_bytes(e: Seq<u8>, t: Tok)
    requires
        e.len() > 0,
        !(e[0] == OBJECT_BEGIN || e[0] == ARRAY_BEGIN || e[0] == OBJECT_END || e[0] == ARRAY_END),
        tson_token(e) == Some((t, e.len() as int)),
    ensures
        e == tok_tson(t),
        tok_depth(t) == 0,
{
    if let Tok::Str(x) = t {
        lemma_le32_bytes(e[1], e[2], e[3], e[4]);
        assert(e.subrange(1, 5) =~= seq![e[1], e[2], e[3], e[4]]);
        assert(x.len() as u32 == le32_at(e, 1));
        assert(e =~= seq![e[0]] + e.subrange(1, 5) + x);
    } else if let Tok::Num(x) = t {
        assert(e =~= seq![e[0]] + x);
    } else {
        assert(e =~= seq![e[0]]);
    }
}

/// The parts of a framed, non-empty byte string: its first value and the rest,
/// with their tokens.
proof fn lemma_first_value(a: Seq<u8>)
    requires
        framed(a),
        a.len() > 0,
    ensures
        a == a.subrange(0, element_len(a)) + a.subrange(element_len(a), a.len() as int),
        framed(a.subrange(element_len(a), a.len() as int)),
        tson_tokens(a) == Some(
            tson_tokens(a.subrange(0, element_len(a)))->0 + tson_tokens(
                a.subrange(element_len(a), a.len() as int),
            )->0,
        ),
        tson_tokens(a.subrange(element_len(a), a.len() as int)) is Some,
{
    let n = element_len(a);
    let e = a.subrange(0, n);
    let r = a.subrange(n, a.len() as int);
    assert(a =~= e + r);
    lemma_element_tokens(a);
    lemma_framed_tokens(r);
    lemma_tson_tokens_concat(e, r);
}

/// Two framed byte strings with the same tokens begin with the same value.
proof fn lemma_first_equal(a: Seq<u8>, b: Seq<u8>)
    requires
        framed(a),
        framed(b),
        a.len() > 0,
        b.len() > 0,
        tson_tokens(a) == tson_tokens(b),
    ensures
        element_len(a) == element_len(b),
        a.subrange(0, element_len(a)) == b.subrange(0, element_len(b)),
    decreases a.len(), 0int,
{
    let na = element_len(a);
    let nb = element_len(b);
    let ea = a.subrange(0, na);
    let eb = b.subrange(0, nb);
    let ra = a.subrange(na, a.len() as int);
    let rb = b.subrange(nb, b.len() as int);
    lemma_first_value(a);
    lemma_first_value(b);
    lemma_element_tokens(a);
    lemma_element_tokens(b);
    let ta = tson_tokens(ea)->0;
    let tb = tson_tokens(eb)->0;
    let ua = tson_tokens(ra)->0;
    let ub = tson_tokens(rb)->0;
    assert((ta + ua)[0] == ta[0]);
    assert((tb + ub)[0] == tb[0]);
    let comp_a = a[0] == OBJECT_BEGIN || a[0] == ARRAY_BEGIN;
    let comp_b = b[0] == OBJECT_BEGIN || b[0] == ARRAY_BEGIN;
    assert(ea[0] == a[0] && eb[0] == b[0]);
    assert(a[0] != OBJECT_END && a[0] != ARRAY_END);
    assert(b[0] != OBJECT_END && b[0] != ARRAY_END);
    if !comp_a {
        lemma_scalar_bytes(ea, ta[0]);
    }
    if !comp_b {
        lemma_scalar_bytes(eb, tb[0]);
    }
    if comp_a && comp_b {
        let la = le32_at(a, 1) as int;
        let lb = le32_at(b, 1) as int;
        let ia = a.subrange(5, 4 + la);
        let ib = b.subrange(5, 4 + lb);
        let tia = tson_tokens(ia)->0;
        let tib = tson_tokens(ib)->0;
        let ca = ta.last();
        let cb = tb.last();
        lemma_framed_tokens(ia);
        lemma_framed_tokens(ib);
        let za = tia + seq![ca] + ua;
        let zb = tib + seq![cb] + ub;
        assert(za =~= (ta + ua).drop_first());
        assert(zb =~= (tb + ub).drop_first());
        lemma_split_unique(tia, ca, ua, tib, cb, ub);
        assert(tia =~= za.subrange(0, tia.len() as int));
        assert(tib =~= zb.subrange(0, tib.len() as int));
        lemma_framed_unique(ia, ib);
        assert(a[0] == b[0]);
        lemma_le32_bytes(a[1], a[2], a[3], a[4]);
        lemma_le32_bytes(b[1], b[2], b[3], b[4]);
        assert(ea =~= seq![a[0]] + seq![a[1], a[2], a[3], a[4]] + ia + seq![a[4 + la]]);
        assert(eb =~= seq![b[0]] + seq![b[1], b[2], b[3], b[4]] + ib + seq![b[4 + lb]]);
        assert(seq![a[1], a[2], a[3], a[4]] == le32(le32_at(a, 1)));
        assert(seq![b[1], b[2], b[3], b[4]] == le32(le32_at(b, 1)));
        assert(ea == eb);
    } else if comp_a != comp_b {
        assert(tok_depth(ta[0]) != tok_depth(tb[0]));
    }
}

/// Framed TSON is determined by its tokens: two framed byte strings that
/// read as the same tokens are the same bytes. So the tokens of what the
/// encoder writes, with its framing, fix every byte of it, length fields
/// included.
pub proof fn lemma_framed_unique(a: Seq<u8>, b: Seq<u8>)
    requires
        framed(a),
        framed(b),
        tson_tokens(a) == tson_tokens(b),
    ensures
        a == b,
    decreases a.len(), 1int,
{
    lemma_framed_tokens(a);
    lemma_framed_tokens(b);
    if a.len() == 0 || b.len() == 0 {
        assert(a =~= b);
    } else {
        lemma_first_equal(a, b);
        lemma_first_value(a);
        lemma_first_value(b);
        let n = element_len(a);
        let e = a.subrange(0, n);
        let ra = a.subrange(n, a.len() as int);
        let rb = b.subrange(n, b.len() as int);
        let t = tson_tokens(e)->0;
        let ua = tson_tokens(ra)->0;
        let ub = tson_tokens(rb)->0;
        assert(t + ua == t + ub);
        assert(ua =~= (t + ua).subrange(t.len() as int, (t + ua).len() as int));
        assert(ub =~= (t + ub).subrange(t.len() as int, (t + ub).len() as int));
        lemma_framed_unique(ra, rb);
    }
}

} // verus!
