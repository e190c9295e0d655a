//! The TSON to JSON decoder.

use vstd::prelude::*;
use vstd::slice::slice_to_vec;
use crate::cursor::ValueCursor;
use crate::error::DbError;
use crate::parsed::Parsed;
use crate::tags::{
    le32_at, le32_from, ARRAY_BEGIN, ARRAY_END, FALSE, JSON_ARRAY_BEGIN, JSON_ARRAY_END,
    JSON_OBJECT_BEGIN, JSON_OBJECT_END, JSON_PAIR, JSON_QUOTE, JSON_SEPARATOR, NULL, NUMBER,
    OBJECT_BEGIN, OBJECT_END, PAIR, SEPARATOR, STRING, TRUE,
};
use crate::tokens::{
    bind_nums, json_text, lemma_num_count_concat, num_count, num_payloads, prepend, tok_json,
    tson_token,
    tson_tokens, Tok,
};

verus! {

/// The views of byte vectors.
pub open spec fn byte_seqs(v: Seq<Vec<u8>>) -> Seq<Seq<u8>> {
    v.map_values(|b: Vec<u8>| b@)
}

/// The JSON text of TSON bytes, the k-th number written as `texts[k]`; `None`
/// where the bytes are not whole tokens or the count of numbers differs.
pub open spec fn decoded(tson: Seq<u8>, texts: Seq<Seq<u8>>) -> Option<Seq<u8>> {
    match tson_tokens(tson) {
        Some(toks) => if num_count(toks) == texts.len() {
            Some(json_text(bind_nums(toks, texts)))
        } else {
            None
        },
        None => None,
    }
}

proof fn lemma_output_push(done: Seq<Tok>, texts: Seq<Seq<u8>>, t: Tok)
    ensures
        json_text(bind_nums(done.push(t), texts)) == json_text(bind_nums(done, texts)) + tok_json(
            if t is Num {
                Tok::Num(texts[num_count(done) as int])
            } else {
                t
            },
        ),
        num_count(done.push(t)) == num_count(done) + if t is Num {
            1nat
        } else {
            0nat
        },
{
    assert(done.push(t).drop_last() =~= done);
    let b = bind_nums(done.push(t), texts);
    assert(b.drop_last() =~= bind_nums(done, texts));
}

/// Transcodes TSON into minified JSON text. Length fields are skipped;
/// numbers arrive as text, one for each number in order of appearance.
pub struct TSONParser {
    cursor: ValueCursor,
    parsed: Parsed,
    texts: Vec<Vec<u8>>,
    next_text: usize,
    done: Ghost<Seq<Tok>>,
}

impl TSONParser {
    /// The TSON being read.
    pub closed spec fn source(&self) -> Seq<u8> {
        self.cursor.data()
    }

    /// The text of each number, in order.
    pub closed spec fn texts(&self) -> Seq<Seq<u8>> {
        byte_seqs(self.texts@)
    }

    pub closed spec fn wf(&self) -> bool {
        &&& self.cursor.wf()
        &&& tson_tokens(self.cursor.data()) == prepend(
            self.done@,
            tson_tokens(self.cursor.data().subrange(self.cursor.pos(), self.cursor.data().len() as int)),
        )
        &&& self.parsed@ == json_text(bind_nums(self.done@, byte_seqs(self.texts@)))
        &&& self.next_text == num_count(self.done@)
        &&& self.next_text <= self.texts@.len()
    }

    pub fn new(tson: Vec<u8>, texts: Vec<Vec<u8>>) -> (r: TSONParser)
        ensures
            r.wf(),
            r.source() == tson@,
            r.texts() == byte_seqs(texts@),
    {
        let capacity = tson.len();
        let ghost t = tson@;
        assert(t.subrange(0, t.len() as int) =~= t);
        proof {
            match tson_tokens(t) {
                Some(x) => assert(Seq::<Tok>::empty() + x =~= x),
                None => {},
            }
        }
        assert(bind_nums(Seq::empty(), byte_seqs(texts@)) =~= Seq::<Tok>::empty());
        TSONParser {
            cursor: ValueCursor::new(tson),
            parsed: Parsed::with_capacity(capacity),
            texts,
            next_text: 0,
            done: Ghost(Seq::empty()),
        }
    }

    /// Reads one token and writes its JSON text.
    fn parse_next(&mut self) -> (r: Result<(), DbError>)
        requires
            old(self).wf(),
            old(self).cursor.pos() < old(self).cursor.data().len(),
        ensures
            final(self).source() == old(self).source(),
            final(self).texts() == old(self).texts(),
            r is Ok ==> final(self).wf() && final(self).cursor.pos() > old(self).cursor.pos(),
            r is Err ==> r == Err::<(), DbError>(DbError::MalformedTson) && decoded(
                old(self).source(),
                old(self).texts(),
            ) is None,
    {
        let ghost src = self.cursor.data();
        let ghost pos = self.cursor.pos();
        let ghost rest = src.subrange(pos, src.len() as int);
        let ghost done = self.done@;
        let ghost texts = byte_seqs(self.texts@);
        let remaining = self.cursor.get_value_ref().len() - self.cursor.get_index();
        let tag = self.cursor.read_next();
        assert(rest[0] == tag);
        let ghost t: Tok;
        if tag == OBJECT_BEGIN || tag == ARRAY_BEGIN {
            if remaining < 5 {
                return Err(DbError::MalformedTson);
            }
            self.cursor.skip_by(4);
            proof {
                t = if tag == OBJECT_BEGIN { Tok::ObjOpen } else { Tok::ArrOpen };
                lemma_output_push(done, texts, t);
            }
            self.parsed.write(if tag == OBJECT_BEGIN { JSON_OBJECT_BEGIN } else { JSON_ARRAY_BEGIN });
        } else if tag == STRING {
            if remaining < 5 {
                return Err(DbError::MalformedTson);
            }
            let len = self.read_length();
            assert(len == le32_at(rest, 1));
            if (len as usize) > remaining - 5 {
                return Err(DbError::MalformedTson);
            }
            let string = slice_to_vec(self.cursor.read_by(len as usize));
            proof {
                t = Tok::Str(string@);
                assert(string@ =~= rest.subrange(5, 5 + len));
                lemma_output_push(done, texts, t);
            }
            self.parsed.write(JSON_QUOTE);
            self.parsed.write_slice(string.as_slice());
            self.parsed.write(JSON_QUOTE);
            assert(self.parsed@ =~= old(self).parsed@ + tok_json(t));
        } else if tag == NUMBER {
            if remaining < 9 {
                return Err(DbError::MalformedTson);
            }
            let bytes = slice_to_vec(self.cursor.read_by(8));
            proof {
                t = Tok::Num(bytes@);
                assert(bytes@ =~= rest.subrange(1, 9));
                lemma_output_push(done, texts, t);
            }
            if self.next_text >= self.texts.len() {
                proof {
                    assert(rest.subrange(9, rest.len() as int) =~= src.subrange(pos + 9, src.len() as int));
                    if let Some(r) = tson_tokens(src.subrange(pos + 9, src.len() as int)) {
                        lemma_num_count_concat(done.push(t), r);
                        assert(done + (seq![t] + r) =~= done.push(t) + r);
                    }
                }
                return Err(DbError::MalformedTson);
            }
            self.parsed.write_slice(self.texts[self.next_text].as_slice());
            assert(self.texts@[self.next_text as int]@ == texts[num_count(done) as int]);
            self.next_text = self.next_text + 1;
        } else if tag == OBJECT_END || tag == ARRAY_END || tag == TRUE || tag == FALSE || tag == NULL
            || tag == PAIR || tag == SEPARATOR {
            proof {
                t = if tag == OBJECT_END {
                    Tok::ObjClose
                } else if tag == ARRAY_END {
                    Tok::ArrClose
                } else if tag == TRUE {
                    Tok::True
                } else if tag == FALSE {
                    Tok::False
                } else if tag == NULL {
                    Tok::Null
                } else if tag == PAIR {
                    Tok::Pair
                } else {
                    Tok::Sep
                };
                lemma_output_push(done, texts, t);
            }
            self.write_single(tag);
            assert(self.parsed@ =~= old(self).parsed@ + tok_json(t));
        } else {
            return Err(DbError::MalformedTson);
        }
        let ghost n = self.cursor.pos() - pos;
        assert(tson_token(rest) == Some((t, n)));
        assert(rest.subrange(n, rest.len() as int) =~= src.subrange(
            self.cursor.pos(),
            src.len() as int,
        ));
        proof {
            match tson_tokens(src.subrange(self.cursor.pos(), src.len() as int)) {
                Some(r) => assert(done + (seq![t] + r) =~= done.push(t) + r),
                None => {},
            }
        }
        self.done = Ghost(done.push(t));
        assert(self.parsed@ == json_text(bind_nums(self.done@, byte_seqs(self.texts@))));
        assert(self.next_text == num_count(self.done@));
        assert(tson_tokens(src) == prepend(
            self.done@,
            tson_tokens(src.subrange(self.cursor.pos(), src.len() as int)),
        ));
        Ok(())
    }

    fn read_length(&mut self) -> (r: u32)
        requires
            old(self).cursor.wf(),
            old(self).cursor.pos() + 4 <= old(self).cursor.data().len(),
        ensures
            final(self).cursor.wf(),
            final(self).cursor.data() == old(self).cursor.data(),
            final(self).cursor.pos() == old(self).cursor.pos() + 4,
            r == le32_at(old(self).cursor.data(), old(self).cursor.pos()),
            final(self).parsed == old(self).parsed,
            final(self).texts == old(self).texts,
            final(self).next_text == old(self).next_text,
            final(self).done == old(self).done,
    {
        let b = self.cursor.read_by(4);
        le32_from(b[0], b[1], b[2], b[3])
    }

    /// Writes the JSON text of a token that is one tag byte.
    fn write_single(&mut self, tag: u8)
        ensures
            final(self).parsed@ == old(self).parsed@ + (if tag == OBJECT_END {
                seq![JSON_OBJECT_END]
            } else if tag == ARRAY_END {
                seq![JSON_ARRAY_END]
            } else if tag == TRUE {
                seq![0x74u8, 0x72u8, 0x75u8, 0x65u8]
            } else if tag == FALSE {
                seq![0x66u8, 0x61u8, 0x6cu8, 0x73u8, 0x65u8]
            } else if tag == NULL {
                seq![0x6eu8, 0x75u8, 0x6cu8, 0x6cu8]
            } else if tag == PAIR {
                seq![JSON_PAIR]
            } else {
                seq![JSON_SEPARATOR]
            }),
            final(self).cursor == old(self).cursor,
            final(self).texts == old(self).texts,
            final(self).next_text == old(self).next_text,
            final(self).done == old(self).done,
    {
        if tag == OBJECT_END {
            self.parsed.write(JSON_OBJECT_END);
        } else if tag == ARRAY_END {
            self.parsed.write(JSON_ARRAY_END);
        } else if tag == TRUE {
            let w: [u8; 4] = [0x74, 0x72, 0x75, 0x65];
            self.parsed.write_slice(&w);
        } else if tag == FALSE {
            let w: [u8; 5] = [0x66, 0x61, 0x6c, 0x73, 0x65];
            self.parsed.write_slice(&w);
        } else if tag == NULL {
            let w: [u8; 4] = [0x6e, 0x75, 0x6c, 0x6c];
            self.parsed.write_slice(&w);
        } else if tag == PAIR {
            self.parsed.write(JSON_PAIR);
        } else {
            self.parsed.write(JSON_SEPARATOR);
        }
        assert(self.parsed@ =~= old(self).parsed@ + (if tag == OBJECT_END {
            seq![JSON_OBJECT_END]
        } else if tag == ARRAY_END {
            seq![JSON_ARRAY_END]
        } else if tag == TRUE {
            seq![0x74u8, 0x72u8, 0x75u8, 0x65u8]
        } else if tag == FALSE {
            seq![0x66u8, 0x61u8, 0x6cu8, 0x73u8, 0x65u8]
        } else if tag == NULL {
            seq![0x6eu8, 0x75u8, 0x6cu8, 0x6cu8]
        } else if tag == PAIR {
            seq![JSON_PAIR]
        } else {
            seq![JSON_SEPARATOR]
        }));
    }

    /// Transcodes the whole input.
    pub fn parse(self) -> (r: Result<Vec<u8>, DbError>)
        requires
            self.wf(),
        ensures
            match decoded(self.source(), self.texts()) {
                Some(j) => r is Ok && r->Ok_0@ == j,
                None => r == Err::<Vec<u8>, DbError>(DbError::MalformedTson),
            },
    {
        let mut p = self;
        while p.cursor.get_index() < p.cursor.get_value_ref().len()
            invariant
                p.wf(),
                p.source() == self.source(),
                p.texts() == self.texts(),
            decreases p.cursor.data().len() - p.cursor.pos(),
        {
            match p.parse_next() {
                Ok(()) => {},
                Err(e) => {
                    return Err(e);
                },
            }
        }
        let ghost src = p.cursor.data();
        assert(src.subrange(src.len() as int, src.len() as int) =~= Seq::<u8>::empty());
        assert(p.done@ + Seq::<Tok>::empty() =~= p.done@);
        if p.next_text != p.texts.len() {
            return Err(DbError::MalformedTson);
        }
        Ok(p.parsed.get_parsed())
    }
}

/// The payload bytes of each number in TSON, in order; `None` where the
/// bytes are not whole tokens.
pub fn number_fields(tson: &[u8]) -> (r: Option<Vec<Vec<u8>>>)
    ensures
        match tson_tokens(tson@) {
            Some(toks) => r is Some && byte_seqs(r->0@) == num_payloads(toks),
            None => r is None,
        },
{
    let n = tson.len();
    let mut i: usize = 0;
    let mut out: Vec<Vec<u8>> = Vec::new();
    let ghost mut done: Seq<Tok> = Seq::empty();
    let ghost s = tson@;
    assert(s.subrange(0, s.len() as int) =~= s);
    proof {
        if let Some(x) = tson_tokens(s) {
            assert(Seq::<Tok>::empty() + x =~= x);
        }
    }
    while i < n
        invariant
            n == s.len(),
            s == tson@,
            i <= n,
            tson_tokens(s) == prepend(done, tson_tokens(s.subrange(i as int, n as int))),
            byte_seqs(out@) == num_payloads(done),
        decreases n - i,
    {
        let ghost rest = s.subrange(i as int, n as int);
        let tag = tson[i];
        assert(rest[0] == tag);
        let size: usize;
        let ghost t: Tok;
        if tag == OBJECT_BEGIN || tag == ARRAY_BEGIN {
            if n - i < 5 {
                return None;
            }
            size = 5;
            proof {
                t = if tag == OBJECT_BEGIN { Tok::ObjOpen } else { Tok::ArrOpen };
            }
        } else if tag == STRING {
            if n - i < 5 {
                return None;
            }
            let len = le32_from(tson[i + 1], tson[i + 2], tson[i + 3], tson[i + 4]);
            assert(len == le32_at(rest, 1));
            if len as usize > n - i - 5 {
                return None;
            }
            size = 5 + len as usize;
            proof {
                t = Tok::Str(rest.subrange(5, 5 + len));
            }
        } else if tag == NUMBER {
            if n - i < 9 {
                return None;
            }
            size = 9;
            let bytes = slice_to_vec(&tson[i + 1..i + 9]);
            proof {
                t = Tok::Num(rest.subrange(1, 9));
                assert(bytes@ =~= rest.subrange(1, 9));
            }
            let ghost before = out@;
            out.push(bytes);
            assert(byte_seqs(out@) =~= byte_seqs(before).push(bytes@));
        } else if tag == OBJECT_END || tag == ARRAY_END || tag == TRUE || tag == FALSE || tag == NULL
            || tag == PAIR || tag == SEPARATOR {
            size = 1;
            proof {
                t = if tag == OBJECT_END {
                    Tok::ObjClose
                } else if tag == ARRAY_END {
                    Tok::ArrClose
                } else if tag == TRUE {
                    Tok::True
                } else if tag == FALSE {
                    Tok::False
                } else if tag == NULL {
                    Tok::Null
                } else if tag == PAIR {
                    Tok::Pair
                } else {
                    Tok::Sep
                };
            }
        } else {
            return None;
        }
        assert(tson_token(rest) == Some((t, size as int)));
        assert(rest.subrange(size as int, rest.len() as int) =~= s.subrange(i + size, n as int));
        proof {
            if let Some(r) = tson_tokens(s.subrange(i + size, n as int)) {
                assert(done + (seq![t] + r) =~= done.push(t) + r);
            }
            assert(done.push(t).drop_last() =~= done);
            done = done.push(t);
        }
        i = i + size;
    }
    assert(s.subrange(n as int, n as int) =~= Seq::<u8>::empty());
    assert(done + Seq::<Tok>::empty() =~= done);
    Some(out)
}

} // verus!
