//! The codec's round trip: decoding what the encoder wrote gives back the
//! JSON text.

use vstd::prelude::*;
use crate::json::{
    accepted, json_token, lemma_number_end_range, lemma_string_end_range, lex, lex_from,
    payloads, string_end, number_end,
};
use crate::tokens::{bind_nums, json_text, num_count, num_payloads, tok_json, tson_tokens, Tok};
use crate::tson::decoded;

verus! {

proof fn lemma_json_text_concat(a: Seq<Tok>, b: Seq<Tok>)
    ensures
        json_text(a + b) == json_text(a) + json_text(b),
    decreases b.len(),
{
    if b.len() == 0 {
        assert(a + b =~= a);
        assert(json_text(a) + json_text(b) =~= json_text(a));
    } else {
        lemma_json_text_concat(a, b.drop_last());
        assert((a + b).drop_last() =~= a + b.drop_last());
        assert(json_text(a) + (json_text(b.drop_last()) + tok_json(b.last())) =~= (json_text(a)
            + json_text(b.drop_last())) + tok_json(b.last()));
    }
}

proof fn lemma_token_text(s: Seq<u8>, i: int)
    requires
        json_token(s, i) is Some,
    ensures
        ({
            let (t, j) = json_token(s, i)->0;
            i < j <= s.len() && tok_json(t) == s.subrange(i, j)
        }),
{
    lemma_string_end_range(s, i + 1);
    lemma_number_end_range(s, i);
    let (t, j) = json_token(s, i)->0;
    let b = s[i];
    if b == 0x74 || b == 0x66 || b == 0x6e {
        let w = crate::json::word_rest(b);
        assert(s.subrange(i + 1, i + 1 + w.len()) == w);
        assert(s.subrange(i, j) =~= seq![b] + s.subrange(i + 1, j));
        assert(tok_json(t) =~= seq![b] + w);
    } else {
        assert(tok_json(t) =~= s.subrange(i, j));
    }
}

/// Writing out the tokens of JSON text gives back the text.
pub proof fn lemma_lex_text(s: Seq<u8>, i: int)
    requires
        0 <= i <= s.len(),
        lex_from(s, i) is Some,
    ensures
        json_text(lex_from(s, i)->0) == s.subrange(i, s.len() as int),
    decreases s.len() - i,
{
    if i >= s.len() {
        assert(json_text(Seq::<Tok>::empty()) =~= s.subrange(i, s.len() as int));
    } else {
        lemma_token_text(s, i);
        let (t, j) = json_token(s, i)->0;
        lemma_lex_text(s, j);
        let r = lex_from(s, j)->0;
        lemma_json_text_concat(seq![t], r);
        assert(seq![t].drop_last() =~= Seq::<Tok>::empty());
        assert(json_text(Seq::<Tok>::empty()) =~= Seq::<u8>::empty());
        assert(json_text(seq![t]) =~= tok_json(t));
        assert(s.subrange(i, s.len() as int) =~= s.subrange(i, j) + s.subrange(j, s.len() as int));
    }
}

proof fn lemma_bind_count(toks: Seq<Tok>, vals: Seq<Seq<u8>>)
    ensures
        num_count(bind_nums(toks, vals)) == num_count(toks),
        num_payloads(toks).len() == num_count(toks),
    decreases toks.len(),
{
    if toks.len() > 0 {
        lemma_bind_count(toks.drop_last(), vals);
        let b = bind_nums(toks, vals);
        assert(b.drop_last() =~= bind_nums(toks.drop_last(), vals));
    }
}

proof fn lemma_bind_back(toks: Seq<Tok>, vals: Seq<Seq<u8>>, back: Seq<Seq<u8>>)
    requires
        num_count(toks) <= vals.len(),
        num_count(toks) <= back.len(),
        back.subrange(0, num_count(toks) as int) == num_payloads(toks),
    ensures
        bind_nums(bind_nums(toks, vals), back) == toks,
    decreases toks.len(),
{
    if toks.len() == 0 {
        assert(bind_nums(Seq::<Tok>::empty(), back) =~= Seq::<Tok>::empty());
    } else {
        let d = toks.drop_last();
        lemma_bind_count(d, vals);
        lemma_bind_count(toks, vals);
        let c = num_count(d);
        assert(back.subrange(0, c as int) =~= num_payloads(d)) by {
            assert(back.subrange(0, c as int) =~= back.subrange(0, num_count(toks) as int).subrange(0, c as int));
            if let Tok::Num(p) = toks.last() {
                assert(num_payloads(toks) == num_payloads(d).push(p));
                assert(num_payloads(toks).subrange(0, c as int) =~= num_payloads(d));
            } else {
                assert(num_payloads(toks) == num_payloads(d));
            }
        }
        lemma_bind_back(d, vals, back);
        let b = bind_nums(toks, vals);
        assert(b.drop_last() =~= bind_nums(d, vals));
        lemma_bind_count(bind_nums(d, vals), vals);
        if let Tok::Num(p) = toks.last() {
            assert(num_payloads(toks)[c as int] == p);
            assert(back[c as int] == back.subrange(0, num_count(toks) as int)[c as int]);
        }
        assert(bind_nums(b, back) == bind_nums(b.drop_last(), back).push(
            if b.last() is Num {
                Tok::Num(back[num_count(b.drop_last()) as int])
            } else {
                b.last()
            },
        ));
        assert(toks =~= d.push(toks.last()));
        assert(bind_nums(b, back) =~= toks);
    }
}

/// Decoding what the encoder wrote, each number written back as its literal
/// text, gives the JSON text back: whatever bit patterns the numbers were
/// given, every other byte returns as it was.
pub proof fn lemma_round_trip(json: Seq<u8>, nums: Seq<u64>, tson: Seq<u8>)
    requires
        accepted(lex(json), nums),
        tson_tokens(tson) == Some(bind_nums(lex(json)->0, payloads(nums))),
    ensures
        decoded(tson, num_payloads(lex(json)->0)) == Some(json),
{
    let toks = lex(json)->0;
    lemma_bind_count(toks, payloads(nums));
    assert(num_payloads(toks).subrange(0, num_count(toks) as int) =~= num_payloads(toks));
    lemma_bind_back(toks, payloads(nums), num_payloads(toks));
    lemma_lex_text(json, 0);
    assert(json.subrange(0, json.len() as int) =~= json);
}

} // verus!
