//! The key layout inside the ordered store: each collection's keys share a
//! prefix, and its index entries sort before its values.

use vstd::prelude::*;
use vstd::slice::slice_to_vec;
use vstd::utf8::encode_utf8;
use crate::error::DbError;
use crate::json::{accepted, id_prefix, lex_from, payloads, JSONParser, MAX_INPUT};
use crate::tokens::{bind_nums, framed, prepend, tson_tokens};

verus! {

/// The UTF-8 bytes of U+10F41F, which open a collection's key space.
pub open spec fn ns_begin() -> Seq<u8> {
    seq![0xF4u8, 0x8Fu8, 0x90u8, 0x9Fu8]
}

/// The UTF-8 bytes of U+10F420, just past a collection's key space.
pub open spec fn ns_end() -> Seq<u8> {
    seq![0xF4u8, 0x8Fu8, 0x90u8, 0xA0u8]
}

/// The byte that marks index entries, `0`.
pub const INDEX: u8 = 0x30;

/// The byte that marks values, `1`.
pub const VALUES: u8 = 0x31;

/// The key of the value with id `id` in collection `name`.
pub open spec fn value_key_of(name: Seq<u8>, id: Seq<u8>) -> Seq<u8> {
    name + ns_begin() + seq![VALUES] + id
}

/// The key of the entry for `id` in index `index` of collection `name`.
pub open spec fn index_key_of(name: Seq<u8>, index: Seq<u8>, id: Seq<u8>) -> Seq<u8> {
    name + ns_begin() + seq![INDEX] + index + id
}

/// Byte-lexicographic order: `a` sorts strictly before `b`.
pub open spec fn lex_lt(a: Seq<u8>, b: Seq<u8>) -> bool
    decreases a.len(),
{
    if a.len() == 0 {
        b.len() > 0
    } else if b.len() == 0 {
        false
    } else if a[0] != b[0] {
        a[0] < b[0]
    } else {
        lex_lt(a.drop_first(), b.drop_first())
    }
}

/// `a` sorts before `b` or equals it.
pub open spec fn lex_le(a: Seq<u8>, b: Seq<u8>) -> bool {
    a == b || lex_lt(a, b)
}

/// `p` is a prefix of `k`.
pub open spec fn has_prefix(k: Seq<u8>, p: Seq<u8>) -> bool {
    p.len() <= k.len() && k.subrange(0, p.len() as int) == p
}

/// The bytes of `parts`, one after another.
pub fn concat_bytes(parts: Vec<Vec<u8>>) -> (r: Vec<u8>)
    ensures
        r@ == parts@.map_values(|p: Vec<u8>| p@).flatten(),
{
    let ghost views = parts@.map_values(|p: Vec<u8>| p@);
    let mut combined: Vec<u8> = Vec::new();
    let mut i: usize = 0;
    while i < parts.len()
        invariant
            i <= parts@.len(),
            views == parts@.map_values(|p: Vec<u8>| p@),
            combined@ == views.subrange(0, i as int).flatten(),
        decreases parts@.len() - i,
    {
        let part = &parts[i];
        let mut j: usize = 0;
        let ghost before = combined@;
        while j < part.len()
            invariant
                j <= part@.len(),
                combined@ == before + part@.subrange(0, j as int),
            decreases part@.len() - j,
        {
            combined.push(part[j]);
            j = j + 1;
            assert(combined@ =~= before + part@.subrange(0, j as int));
        }
        assert(part@.subrange(0, j as int) =~= part@);
        assert(views.subrange(0, i + 1) =~= views.subrange(0, i as int).push(views[i as int]));
        proof {
            views.subrange(0, i as int).lemma_flatten_push(views[i as int]);
        }
        i = i + 1;
    }
    assert(views.subrange(0, i as int) =~= views);
    combined
}

fn ns_begin_bytes() -> (r: Vec<u8>)
    ensures
        r@ == ns_begin(),
{
    let r = vec![0xF4u8, 0x8Fu8, 0x90u8, 0x9Fu8];
    assert(r@ =~= ns_begin());
    r
}

fn ns_end_bytes() -> (r: Vec<u8>)
    ensures
        r@ == ns_end(),
{
    let r = vec![0xF4u8, 0x8Fu8, 0x90u8, 0xA0u8];
    assert(r@ =~= ns_end());
    r
}

proof fn lemma_flatten3(a: Seq<u8>, b: Seq<u8>, c: Seq<u8>)
    ensures
        seq![a, b, c].flatten() == a + b + c,
{
    assert(seq![a, b, c] =~= seq![a, b].push(c));
    assert(seq![a, b] =~= seq![a].push(b));
    assert(seq![a] =~= Seq::<Seq<u8>>::empty().push(a));
    Seq::<Seq<u8>>::empty().lemma_flatten_push(a);
    seq![a].lemma_flatten_push(b);
    seq![a, b].lemma_flatten_push(c);
    assert(Seq::<Seq<u8>>::empty().flatten() =~= Seq::<u8>::empty());
    assert(Seq::<u8>::empty() + a =~= a);
}

/// The key of the value with id `id` in collection `name`.
pub fn value_key(name: &[u8], id: &[u8]) -> (r: Vec<u8>)
    ensures
        r@ == value_key_of(name@, id@),
{
    let head = slice_to_vec(name);
    let tail = slice_to_vec(id);
    let mut ns = ns_begin_bytes();
    ns.push(VALUES);
    let parts = vec![head, ns, tail];
    proof {
        lemma_flatten3(name@, ns_begin().push(VALUES), id@);
        assert(parts@.map_values(|p: Vec<u8>| p@) =~= seq![name@, ns_begin().push(VALUES), id@]);
        assert(name@ + ns_begin().push(VALUES) + id@ =~= value_key_of(name@, id@));
    }
    concat_bytes(parts)
}

/// The key of the entry for `id` in index `index` of collection `name`.
pub fn index_key(name: &[u8], index: &[u8], id: &[u8]) -> (r: Vec<u8>)
    ensures
        r@ == index_key_of(name@, index@, id@),
{
    let head = slice_to_vec(name);
    let mut ns = ns_begin_bytes();
    ns.push(INDEX);
    let mut tail = slice_to_vec(index);
    let mut j: usize = 0;
    while j < id.len()
        invariant
            j <= id@.len(),
            tail@ == index@ + id@.subrange(0, j as int),
        decreases id@.len() - j,
    {
        tail.push(id[j]);
        j = j + 1;
        assert(tail@ =~= index@ + id@.subrange(0, j as int));
    }
    assert(id@.subrange(0, j as int) =~= id@);
    let parts = vec![head, ns, tail];
    proof {
        lemma_flatten3(name@, ns_begin().push(INDEX), index@ + id@);
        assert(parts@.map_values(|p: Vec<u8>| p@) =~= seq![name@, ns_begin().push(INDEX), index@ + id@]);
        assert(name@ + ns_begin().push(INDEX) + (index@ + id@) =~= index_key_of(name@, index@, id@));
    }
    concat_bytes(parts)
}

/// The bounds of a range scan over collection `name`: from the first key of
/// its space, inclusive, to the first key past it, exclusive.
pub fn collection_bounds(name: &[u8]) -> (r: (Vec<u8>, Vec<u8>))
    ensures
        r.0@ == name@ + ns_begin(),
        r.1@ == name@ + ns_end(),
{
    let mut lower = slice_to_vec(name);
    let mut upper = slice_to_vec(name);
    let b = ns_begin_bytes();
    let e = ns_end_bytes();
    let mut j: usize = 0;
    while j < 4
        invariant
            j <= 4,
            b@ == ns_begin(),
            e@ == ns_end(),
            lower@ == name@ + ns_begin().subrange(0, j as int),
            upper@ == name@ + ns_end().subrange(0, j as int),
        decreases 4 - j,
    {
        lower.push(b[j]);
        upper.push(e[j]);
        j = j + 1;
        assert(lower@ =~= name@ + ns_begin().subrange(0, j as int));
        assert(upper@ =~= name@ + ns_end().subrange(0, j as int));
    }
    assert(ns_begin().subrange(0, 4) =~= ns_begin());
    assert(ns_end().subrange(0, 4) =~= ns_end());
    (lower, upper)
}

/// A named collection: the prefix of its keys in the store.
pub struct Collection {
    name: String,
}

impl Collection {
    /// The collection's name.
    pub closed spec fn name(&self) -> Seq<char> {
        self.name@
    }

    pub fn new(name: String) -> (r: Collection)
        ensures
            r.name() == name@,
    {
        Collection { name }
    }

    pub fn get_name(&self) -> (r: &str)
        ensures
            r@ == self.name(),
    {
        self.name.as_str()
    }

    /// The key under which the document with id `id` is stored.
    pub fn values_key(&self, id: &[u8]) -> (r: Vec<u8>)
        ensures
            r@ == value_key_of(encode_utf8(self.name()), id@),
    {
        value_key(self.name.as_str().as_bytes(), id)
    }

    /// The key of the entry for `id` in index `index`.
    pub fn index_key(&self, index: &[u8], id: &[u8]) -> (r: Vec<u8>)
        ensures
            r@ == index_key_of(encode_utf8(self.name()), index@, id@),
    {
        index_key(self.name.as_str().as_bytes(), index, id)
    }

    /// The entry that stores a document: its key, and its TSON, which is
    /// the JSON text with `id` as its `_id`. The numbers of the text arrive
    /// as the bit patterns of their values.
    pub fn insert(&self, id: String, json: String, numbers: Vec<u64>) -> (r: Result<
        (Vec<u8>, Vec<u8>),
        DbError,
    >)
        requires
            encode_utf8(json@).len() <= MAX_INPUT,
            encode_utf8(id@).len() <= MAX_INPUT,
        ensures
            ({
                let toks = prepend(id_prefix(encode_utf8(id@)), lex_from(encode_utf8(json@), 1));
                if accepted(toks, numbers@) {
                    &&& r is Ok
                    &&& r->Ok_0.0@ == value_key_of(encode_utf8(self.name()), encode_utf8(id@))
                    &&& tson_tokens(r->Ok_0.1@) == Some(bind_nums(toks->0, payloads(numbers@)))
                    &&& framed(r->Ok_0.1@)
                } else {
                    r == Err::<(Vec<u8>, Vec<u8>), DbError>(DbError::MalformedJson)
                }
            }),
    {
        let key = self.values_key(id.as_str().as_bytes());
        let parser = JSONParser::new_with_id(id, json, numbers);
        match parser.parse() {
            Ok(tson) => Ok((key, tson)),
            Err(e) => Err(e),
        }
    }

    /// The bounds of a scan over this collection's keys.
    pub fn bounds(&self) -> (r: (Vec<u8>, Vec<u8>))
        ensures
            r.0@ == encode_utf8(self.name()) + ns_begin(),
            r.1@ == encode_utf8(self.name()) + ns_end(),
    {
        collection_bounds(self.name.as_str().as_bytes())
    }
}

proof fn lemma_lex_lt_prefix(p: Seq<u8>, a: Seq<u8>, b: Seq<u8>)
    ensures
        lex_lt(p + a, p + b) == lex_lt(a, b),
    decreases p.len(),
{
    if p.len() > 0 {
        assert((p + a).drop_first() =~= p.drop_first() + a);
        assert((p + b).drop_first() =~= p.drop_first() + b);
        lemma_lex_lt_prefix(p.drop_first(), a, b);
    } else {
        assert(p + a =~= a);
        assert(p + b =~= b);
    }
}

/// Within one collection, values sort by their ids.
pub proof fn lemma_value_keys_ordered(name: Seq<u8>, id1: Seq<u8>, id2: Seq<u8>)
    requires
        lex_lt(id1, id2),
    ensures
        lex_lt(value_key_of(name, id1), value_key_of(name, id2)),
{
    let p = name + ns_begin() + seq![VALUES];
    lemma_lex_lt_prefix(p, id1, id2);
}

/// Within one collection, every index entry sorts before every value.
pub proof fn lemma_index_before_values(name: Seq<u8>, index: Seq<u8>, id1: Seq<u8>, id2: Seq<u8>)
    ensures
        lex_lt(index_key_of(name, index, id1), value_key_of(name, id2)),
{
    let p = name + ns_begin();
    let a = seq![INDEX] + index + id1;
    let b = seq![VALUES] + id2;
    assert(index_key_of(name, index, id1) =~= p + a);
    assert(value_key_of(name, id2) =~= p + b);
    lemma_lex_lt_prefix(p, a, b);
    assert(a[0] == INDEX && b[0] == VALUES);
}

proof fn lemma_between(p: Seq<u8>, k: Seq<u8>)
    ensures
        (lex_le(p.push(0x9Fu8), k) && lex_lt(k, p.push(0xA0u8))) <==> has_prefix(k, p.push(0x9Fu8)),
    decreases p.len(),
{
    let lo = p.push(0x9Fu8);
    let hi = p.push(0xA0u8);
    if p.len() == 0 {
        if k.len() > 0 {
            assert(lo.drop_first() =~= Seq::<u8>::empty());
            assert(hi.drop_first() =~= Seq::<u8>::empty());
            if k[0] == 0x9F {
                assert(k.subrange(0, 1) =~= lo);
                assert(lex_lt(lo.drop_first(), k.drop_first()) == (k.len() > 1));
                if k.len() == 1 {
                    assert(lo =~= k);
                }
                assert(lex_lt(k, hi));
            } else {
                assert(lex_lt(lo, k) == (0x9Fu8 < k[0]));
                if k[0] == 0xA0 {
                    assert(!lex_lt(k.drop_first(), hi.drop_first()));
                } else {
                    assert(lex_lt(k, hi) == (k[0] < 0xA0u8));
                }
            }
        }
    } else if k.len() > 0 {
        if k[0] == p[0] {
            lemma_between(p.drop_first(), k.drop_first());
            assert(lo.drop_first() =~= p.drop_first().push(0x9Fu8));
            assert(hi.drop_first() =~= p.drop_first().push(0xA0u8));
            if has_prefix(k, lo) {
                assert(k.drop_first().subrange(0, lo.len() - 1) =~= k.subrange(0, lo.len() as int).drop_first());
            }
            if has_prefix(k.drop_first(), lo.drop_first()) {
                assert(k.subrange(0, lo.len() as int) =~= seq![k[0]] + k.drop_first().subrange(0, lo.len() - 1));
                assert(lo =~= seq![lo[0]] + lo.drop_first());
            }
            if lo == k {
                assert(lo.drop_first() == k.drop_first());
            }
            if lo.drop_first() == k.drop_first() {
                assert(lo[0] == k[0]);
                assert(lo =~= seq![lo[0]] + lo.drop_first());
                assert(k =~= seq![k[0]] + k.drop_first());
            }
        } else {
            assert(lo[0] == p[0]);
            if lo.len() <= k.len() {
                assert(k.subrange(0, lo.len() as int)[0] == k[0]);
            }
        }
    }
}

/// A scan between a collection's bounds meets exactly the keys that start
/// with its name and the namespace marker.
pub proof fn lemma_bounds_exact(name: Seq<u8>, k: Seq<u8>)
    ensures
        (lex_le(name + ns_begin(), k) && lex_lt(k, name + ns_end())) <==> has_prefix(
            k,
            name + ns_begin(),
        ),
{
    let p = name + seq![0xF4u8, 0x8Fu8, 0x90u8];
    assert(name + ns_begin() =~= p.push(0x9Fu8));
    assert(name + ns_end() =~= p.push(0xA0u8));
    lemma_between(p, k);
}

} // verus!
