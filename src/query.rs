//! The query parser: from the TSON of a query document to a tree of logical
//! and field operations.

use vstd::prelude::*;
use vstd::slice::slice_to_vec;
use crate::cursor::ValueCursor;
use crate::error::DbError;
use crate::json::{accepted, lex, payloads, JSONParser, MAX_INPUT};
use crate::tokens::{bind_nums, framed, tson_tokens};
use vstd::utf8::encode_utf8;
use crate::tags::{
    le32_at, le32_from, le64_at, le64_from, ARRAY_BEGIN, ARRAY_END, FALSE, NULL, NUMBER, OBJECT_BEGIN, OBJECT_END, PAIR,
    SEPARATOR, STRING, TRUE,
};

verus! {

broadcast use vstd::std_specs::vec::group_vec_axioms;

/// A value that an equality operator compares with. A number is held as the
/// bit pattern of its value.
#[derive(Debug, PartialEq, Eq)]
pub enum EqualityValue {
    String(Vec<u8>),
    Number(u64),
    True,
    False,
    Null,
}

/// A value that an ordering operator compares with.
#[derive(Debug, PartialEq, Eq)]
pub enum ComparisonValue {
    String(Vec<u8>),
    Number(u64),
}

/// An operator and its operand.
#[derive(Debug, PartialEq, Eq)]
pub enum Operation {
    Eq(EqualityValue),
    Ne(EqualityValue),
    Lt(ComparisonValue),
    Lte(ComparisonValue),
    Gt(ComparisonValue),
    Gte(ComparisonValue),
    In(Vec<EqualityValue>),
    Nin(Vec<EqualityValue>),
}

/// An operation on the field found by following `namespace` into a document.
#[derive(Debug, PartialEq, Eq)]
pub struct NamespacedOperation {
    pub namespace: Vec<Vec<u8>>,
    pub operation: Operation,
}

/// A query: a conjunction of field operations, or a conjunction or
/// disjunction of queries.
#[derive(Debug, PartialEq, Eq)]
pub enum LogicalOperation {
    Leaf(Vec<NamespacedOperation>),
    And(Vec<LogicalOperation>),
    Or(Vec<LogicalOperation>),
}

/// The value of an operand.
pub enum ValueModel {
    Str(Seq<u8>),
    Num(u64),
    True,
    False,
    Null,
}

/// The value of an operation.
pub enum OpModel {
    Eq(ValueModel),
    Ne(ValueModel),
    Lt(ValueModel),
    Lte(ValueModel),
    Gt(ValueModel),
    Gte(ValueModel),
    In(Seq<ValueModel>),
    Nin(Seq<ValueModel>),
}

/// The value of a query.
pub enum QueryModel {
    Leaf(Seq<(Seq<Seq<u8>>, OpModel)>),
    And(Seq<QueryModel>),
    Or(Seq<QueryModel>),
}

impl View for EqualityValue {
    type V = ValueModel;

    open spec fn view(&self) -> ValueModel {
        match self {
            EqualityValue::String(b) => ValueModel::Str(b@),
            EqualityValue::Number(n) => ValueModel::Num(*n),
            EqualityValue::True => ValueModel::True,
            EqualityValue::False => ValueModel::False,
            EqualityValue::Null => ValueModel::Null,
        }
    }
}

impl View for ComparisonValue {
    type V = ValueModel;

    open spec fn view(&self) -> ValueModel {
        match self {
            ComparisonValue::String(b) => ValueModel::Str(b@),
            ComparisonValue::Number(n) => ValueModel::Num(*n),
        }
    }
}

/// The values of a list of operands.
pub open spec fn values_view(v: Seq<EqualityValue>) -> Seq<ValueModel> {
    v.map_values(|x: EqualityValue| x@)
}

impl View for Operation {
    type V = OpModel;

    open spec fn view(&self) -> OpModel {
        match self {
            Operation::Eq(v) => OpModel::Eq(v@),
            Operation::Ne(v) => OpModel::Ne(v@),
            Operation::Lt(v) => OpModel::Lt(v@),
            Operation::Lte(v) => OpModel::Lte(v@),
            Operation::Gt(v) => OpModel::Gt(v@),
            Operation::Gte(v) => OpModel::Gte(v@),
            Operation::In(v) => OpModel::In(values_view(v@)),
            Operation::Nin(v) => OpModel::Nin(values_view(v@)),
        }
    }
}

/// The segments of a path.
pub open spec fn path_view(p: Seq<Vec<u8>>) -> Seq<Seq<u8>> {
    p.map_values(|x: Vec<u8>| x@)
}

impl View for NamespacedOperation {
    type V = (Seq<Seq<u8>>, OpModel);

    open spec fn view(&self) -> (Seq<Seq<u8>>, OpModel) {
        (path_view(self.namespace@), self.operation@)
    }
}

/// The values of a list of field operations.
pub open spec fn ops_view(v: Seq<NamespacedOperation>) -> Seq<(Seq<Seq<u8>>, OpModel)> {
    v.map_values(|x: NamespacedOperation| x@)
}

/// The value of a query tree.
pub open spec fn query_view(q: LogicalOperation) -> QueryModel
    decreases q,
{
    match q {
        LogicalOperation::Leaf(v) => QueryModel::Leaf(ops_view(v@)),
        LogicalOperation::And(v) => QueryModel::And(
            Seq::new(
                v@.len(),
                |i: int|
                    if 0 <= i < v@.len() {
                        query_view(v@[i])
                    } else {
                        QueryModel::And(Seq::empty())
                    },
            ),
        ),
        LogicalOperation::Or(v) => QueryModel::Or(
            Seq::new(
                v@.len(),
                |i: int|
                    if 0 <= i < v@.len() {
                        query_view(v@[i])
                    } else {
                        QueryModel::And(Seq::empty())
                    },
            ),
        ),
    }
}

/// `acc` put before the list that `r` holds, if it holds one.
pub open spec fn pre<A>(acc: Seq<A>, r: Result<Seq<A>, DbError>) -> Result<Seq<A>, DbError> {
    match r {
        Ok(l) => Ok(acc + l),
        Err(e) => Err(e),
    }
}

/// `acc` put before the list that `r` holds with the index after it.
pub open spec fn pre_at<A>(acc: Seq<A>, r: Result<(Seq<A>, int), DbError>) -> Result<
    (Seq<A>, int),
    DbError,
> {
    match r {
        Ok((l, m)) => Ok((acc + l, m)),
        Err(e) => Err(e),
    }
}

pub proof fn lemma_pre_push<A>(acc: Seq<A>, x: A, r: Result<Seq<A>, DbError>)
    ensures
        pre(acc, pre(seq![x], r)) == pre(acc.push(x), r),
{
    if let Ok(l) = r {
        assert(acc + (seq![x] + l) =~= acc.push(x) + l);
    }
}

pub proof fn lemma_pre_at_push<A>(acc: Seq<A>, x: A, r: Result<(Seq<A>, int), DbError>)
    ensures
        pre_at(acc, pre_at(seq![x], r)) == pre_at(acc.push(x), r),
{
    if let Ok((l, m)) = r {
        assert(acc + (seq![x] + l) =~= acc.push(x) + l);
    }
}

/// The names of the operators, `$eq` to `$nin`, and of the logical keys.
pub open spec fn name_eq() -> Seq<u8> { seq![0x24u8, 0x65u8, 0x71u8] }
pub open spec fn name_ne() -> Seq<u8> { seq![0x24u8, 0x6eu8, 0x65u8] }
pub open spec fn name_lt() -> Seq<u8> { seq![0x24u8, 0x6cu8, 0x74u8] }
pub open spec fn name_lte() -> Seq<u8> { seq![0x24u8, 0x6cu8, 0x74u8, 0x65u8] }
pub open spec fn name_gt() -> Seq<u8> { seq![0x24u8, 0x67u8, 0x74u8] }
pub open spec fn name_gte() -> Seq<u8> { seq![0x24u8, 0x67u8, 0x74u8, 0x65u8] }
pub open spec fn name_in() -> Seq<u8> { seq![0x24u8, 0x69u8, 0x6eu8] }
pub open spec fn name_nin() -> Seq<u8> { seq![0x24u8, 0x6eu8, 0x69u8, 0x6eu8] }
pub open spec fn name_and() -> Seq<u8> { seq![0x24u8, 0x61u8, 0x6eu8, 0x64u8] }
pub open spec fn name_or() -> Seq<u8> { seq![0x24u8, 0x6fu8, 0x72u8] }
pub open spec fn name_not() -> Seq<u8> { seq![0x24u8, 0x6eu8, 0x6fu8, 0x74u8] }

/// The operator that `n` names, from 0 (`$eq`) to 7 (`$nin`), or -1.
pub open spec fn op_code(n: Seq<u8>) -> int {
    if n == name_eq() {
        0
    } else if n == name_ne() {
        1
    } else if n == name_lt() {
        2
    } else if n == name_lte() {
        3
    } else if n == name_gt() {
        4
    } else if n == name_gte() {
        5
    } else if n == name_in() {
        6
    } else if n == name_nin() {
        7
    } else {
        -1
    }
}

/// A key that makes a query logical.
pub open spec fn is_logic_key(k: Seq<u8>) -> bool {
    k == name_and() || k == name_or() || k == name_not()
}

/// The string at `i`, and the index after it.
pub open spec fn key_at(s: Seq<u8>, i: int) -> Option<(Seq<u8>, int)> {
    if 0 <= i && i + 5 <= s.len() && s[i] == STRING && i + 5 + le32_at(s, i + 1) <= s.len() {
        Some((s.subrange(i + 5, i + 5 + le32_at(s, i + 1)), i + 5 + le32_at(s, i + 1)))
    } else {
        None
    }
}

/// The scalar operand at `i`, and the index after it.
pub open spec fn value_at(s: Seq<u8>, i: int) -> Result<(ValueModel, int), DbError> {
    if i < 0 || i >= s.len() {
        Err(DbError::MalformedTson)
    } else if s[i] == STRING {
        match key_at(s, i) {
            Some((b, j)) => Ok((ValueModel::Str(b), j)),
            None => Err(DbError::MalformedTson),
        }
    } else if s[i] == NUMBER {
        if i + 9 <= s.len() {
            Ok((ValueModel::Num(le64_at(s, i + 1)), i + 9))
        } else {
            Err(DbError::MalformedTson)
        }
    } else if s[i] == TRUE {
        Ok((ValueModel::True, i + 1))
    } else if s[i] == FALSE {
        Ok((ValueModel::False, i + 1))
    } else if s[i] == NULL {
        Ok((ValueModel::Null, i + 1))
    } else {
        Err(DbError::InvalidQuery)
    }
}

/// The operand of an ordering operator at `i`: a string or a number.
pub open spec fn comparison_at(s: Seq<u8>, i: int) -> Result<(ValueModel, int), DbError> {
    if 0 <= i < s.len() && s[i] != STRING && s[i] != NUMBER {
        Err(DbError::InvalidQuery)
    } else {
        value_at(s, i)
    }
}

/// The items of an array operand from `i` on, up to its end tag, and the
/// index after that tag.
pub open spec fn array_items(s: Seq<u8>, i: int) -> Result<(Seq<ValueModel>, int), DbError>
    decreases s.len() - i,
{
    if i < 0 || i >= s.len() {
        Err(DbError::MalformedTson)
    } else if s[i] == SEPARATOR {
        array_items(s, i + 1)
    } else if s[i] == ARRAY_END {
        Ok((Seq::empty(), i + 1))
    } else {
        match value_at(s, i) {
            Ok((v, j)) => if j > i {
                pre_at(seq![v], array_items(s, j))
            } else {
                Err(DbError::MalformedTson)
            },
            Err(e) => Err(e),
        }
    }
}

/// The array operand of `$in` or `$nin` at `i`.
pub open spec fn array_at(s: Seq<u8>, i: int) -> Result<(Seq<ValueModel>, int), DbError> {
    if i < 0 || i >= s.len() {
        Err(DbError::MalformedTson)
    } else if s[i] != ARRAY_BEGIN {
        Err(DbError::InvalidQuery)
    } else if i + 5 > s.len() {
        Err(DbError::MalformedTson)
    } else {
        array_items(s, i + 5)
    }
}

/// The operation with operator `code` whose operand is at `i`.
pub open spec fn operand_at(code: int, s: Seq<u8>, i: int) -> Result<(OpModel, int), DbError> {
    if code <= 1 {
        match value_at(s, i) {
            Ok((v, j)) => Ok((if code == 0 { OpModel::Eq(v) } else { OpModel::Ne(v) }, j)),
            Err(e) => Err(e),
        }
    } else if code <= 5 {
        match comparison_at(s, i) {
            Ok((v, j)) => Ok(
                (
                    if code == 2 {
                        OpModel::Lt(v)
                    } else if code == 3 {
                        OpModel::Lte(v)
                    } else if code == 4 {
                        OpModel::Gt(v)
                    } else {
                        OpModel::Gte(v)
                    },
                    j,
                ),
            ),
            Err(e) => Err(e),
        }
    } else {
        match array_at(s, i) {
            Ok((v, j)) => Ok((if code == 6 { OpModel::In(v) } else { OpModel::Nin(v) }, j)),
            Err(e) => Err(e),
        }
    }
}

/// The path that a dotted key names: its pieces between dots, empty ones
/// kept.
pub open spec fn split_path(k: Seq<u8>) -> Seq<Seq<u8>>
    decreases k.len(),
{
    if k.len() == 0 {
        seq![Seq::empty()]
    } else {
        let r = split_path(k.drop_last());
        if k.last() == 0x2eu8 {
            r.push(Seq::empty())
        } else {
            r.update(r.len() - 1, r.last().push(k.last()))
        }
    }
}

/// The field operations of an operation-form query from `i` on. Outside a
/// key's operator object `key` is `None`; inside it holds the key.
pub open spec fn ops_from(s: Seq<u8>, i: int, key: Option<Seq<u8>>) -> Result<
    Seq<(Seq<Seq<u8>>, OpModel)>,
    DbError,
>
    decreases s.len() - i,
{
    if i < 0 || i >= s.len() {
        Ok(Seq::empty())
    } else {
        let tag = s[i];
        match key {
            None => if tag == STRING {
                match key_at(s, i) {
                    None => Err(DbError::MalformedTson),
                    Some((k, j)) => if op_code(k) >= 0 {
                        Err(DbError::InvalidQuery)
                    } else if j + 1 >= s.len() || s[j] != PAIR {
                        Err(DbError::MalformedTson)
                    } else if s[j + 1] == OBJECT_BEGIN {
                        if j + 6 <= s.len() {
                            ops_from(s, j + 6, Some(k))
                        } else {
                            Err(DbError::MalformedTson)
                        }
                    } else {
                        match value_at(s, j + 1) {
                            Ok((v, m)) => if m > i {
                                pre(seq![(split_path(k), OpModel::Eq(v))], ops_from(s, m, None))
                            } else {
                                Err(DbError::MalformedTson)
                            },
                            Err(e) => Err(e),
                        }
                    },
                }
            } else if tag == SEPARATOR || tag == ARRAY_END {
                ops_from(s, i + 1, None)
            } else {
                Err(DbError::MalformedTson)
            },
            Some(k) => if tag == STRING {
                match key_at(s, i) {
                    None => Err(DbError::MalformedTson),
                    Some((n, j)) => if op_code(n) < 0 {
                        Err(DbError::InvalidQuery)
                    } else if j >= s.len() || s[j] != PAIR {
                        Err(DbError::MalformedTson)
                    } else {
                        match operand_at(op_code(n), s, j + 1) {
                            Ok((op, m)) => if i < m <= s.len() {
                                pre(seq![(split_path(k), op)], ops_from(s, m, Some(k)))
                            } else {
                                Err(DbError::MalformedTson)
                            },
                            Err(e) => Err(e),
                        }
                    },
                }
            } else if tag == OBJECT_END {
                ops_from(s, i + 1, None)
            } else if tag == SEPARATOR || tag == ARRAY_END {
                ops_from(s, i + 1, Some(k))
            } else {
                Err(DbError::MalformedTson)
            },
        }
    }
}

/// The index after the value at `i`, or -1.
pub open spec fn value_end(s: Seq<u8>, i: int) -> int {
    if i < 0 || i >= s.len() {
        -1
    } else if s[i] == STRING {
        match key_at(s, i) {
            Some((_, j)) => j,
            None => -1,
        }
    } else if s[i] == NUMBER {
        if i + 9 <= s.len() {
            i + 9
        } else {
            -1
        }
    } else if s[i] == TRUE || s[i] == FALSE || s[i] == NULL {
        i + 1
    } else if s[i] == OBJECT_BEGIN || s[i] == ARRAY_BEGIN {
        if i + 5 <= s.len() && i + 5 + le32_at(s, i + 1) <= s.len() {
            i + 5 + le32_at(s, i + 1)
        } else {
            -1
        }
    } else {
        -1
    }
}

/// The first string from `i` on, found by skipping separators, pair tags
/// and whole values.
pub open spec fn first_key(s: Seq<u8>, i: int) -> Option<Seq<u8>>
    decreases s.len() - i,
{
    if i < 0 || i >= s.len() {
        None
    } else if s[i] == STRING {
        match key_at(s, i) {
            Some((k, _)) => Some(k),
            None => None,
        }
    } else if s[i] == SEPARATOR || s[i] == PAIR {
        first_key(s, i + 1)
    } else {
        let j = value_end(s, i);
        if i < j <= s.len() {
            first_key(s, j)
        } else {
            None
        }
    }
}

/// A query is in logic form when its first key is `$and`, `$or` or `$not`.
pub open spec fn is_logic(s: Seq<u8>) -> bool {
    match first_key(s, 0) {
        Some(k) => is_logic_key(k),
        None => false,
    }
}

/// The query that the contents of a query object state.
pub open spec fn query_of(s: Seq<u8>) -> Result<QueryModel, DbError>
    decreases s.len(), 2int, 0int,
{
    if is_logic(s) {
        match logic_from(s, 0) {
            Ok(l) => if l.len() == 0 {
                Err(DbError::InvalidQuery)
            } else if l.len() == 1 {
                Ok(l[0])
            } else {
                Ok(QueryModel::And(l))
            },
            Err(e) => Err(e),
        }
    } else {
        match ops_from(s, 0, None) {
            Ok(ops) => Ok(QueryModel::Leaf(ops)),
            Err(e) => Err(e),
        }
    }
}

/// The queries of a logic-form query from `i` on, one for each key.
pub open spec fn logic_from(s: Seq<u8>, i: int) -> Result<Seq<QueryModel>, DbError>
    decreases s.len(), 1int, s.len() - i,
{
    if i < 0 || i >= s.len() {
        Ok(Seq::empty())
    } else if s[i] == SEPARATOR {
        logic_from(s, i + 1)
    } else if s[i] == STRING {
        match key_at(s, i) {
            None => Err(DbError::MalformedTson),
            Some((k, j)) => if j >= s.len() || s[j] != PAIR {
                Err(DbError::MalformedTson)
            } else if k == name_not() {
                Err(DbError::InvalidQuery)
            } else if k == name_and() || k == name_or() {
                if j + 1 >= s.len() {
                    Err(DbError::MalformedTson)
                } else if s[j + 1] != ARRAY_BEGIN {
                    Err(DbError::InvalidQuery)
                } else if j + 6 > s.len() {
                    Err(DbError::MalformedTson)
                } else {
                    match elements_from(s, j + 6) {
                        Ok((l, m)) => if i < m <= s.len() {
                            pre(
                                seq![
                                    if k == name_and() {
                                        QueryModel::And(l)
                                    } else {
                                        QueryModel::Or(l)
                                    },
                                ],
                                logic_from(s, m),
                            )
                        } else {
                            Err(DbError::MalformedTson)
                        },
                        Err(e) => Err(e),
                    }
                }
            } else {
                let m = value_end(s, j + 1);
                if m <= i {
                    Err(DbError::MalformedTson)
                } else {
                    match ops_from(s.subrange(i, m), 0, None) {
                        Ok(ops) => pre(seq![QueryModel::Leaf(ops)], logic_from(s, m)),
                        Err(e) => Err(e),
                    }
                }
            },
        }
    } else {
        Err(DbError::MalformedTson)
    }
}

/// The queries of the objects of a `$and` or `$or` array from `i` on, and
/// the index after the array's end tag.
pub open spec fn elements_from(s: Seq<u8>, i: int) -> Result<(Seq<QueryModel>, int), DbError>
    decreases s.len(), 0int, s.len() - i + 1,
{
    if i < 0 || i >= s.len() {
        Err(DbError::MalformedTson)
    } else if s[i] == SEPARATOR {
        elements_from(s, i + 1)
    } else if s[i] == ARRAY_END {
        Ok((Seq::empty(), i + 1))
    } else if s[i] == OBJECT_BEGIN {
        match element_at(s, i) {
            Ok((q, m)) => if i < m <= s.len() {
                pre_at(seq![q], elements_from(s, m))
            } else {
                Err(DbError::MalformedTson)
            },
            Err(e) => Err(e),
        }
    } else {
        Err(DbError::InvalidQuery)
    }
}

/// The query that a query document's TSON states.
pub open spec fn parse_query(tson: Seq<u8>) -> Result<QueryModel, DbError> {
    if tson.len() < 6 || tson[0] != OBJECT_BEGIN || tson.last() != OBJECT_END {
        Err(DbError::MalformedTson)
    } else {
        query_of(tson.subrange(5, tson.len() - 1))
    }
}

/// Whether two byte strings are equal.
fn bytes_eq(a: &[u8], b: &[u8]) -> (r: bool)
    ensures
        r == (a@ == b@),
{
    if a.len() != b.len() {
        return false;
    }
    let mut i: usize = 0;
    while i < a.len()
        invariant
            a@.len() == b@.len(),
            i <= a@.len(),
            a@.subrange(0, i as int) == b@.subrange(0, i as int),
        decreases a@.len() - i,
    {
        if a[i] != b[i] {
            assert(a@[i as int] != b@[i as int]);
            return false;
        }
        i = i + 1;
        assert(a@.subrange(0, i as int) =~= b@.subrange(0, i as int));
    }
    assert(a@ =~= a@.subrange(0, i as int));
    assert(b@ =~= b@.subrange(0, i as int));
    true
}

/// The operator that `n` names, or -1.
fn operator_code(n: &[u8]) -> (r: i8)
    ensures
        r == op_code(n@),
{
    let eq: [u8; 3] = [0x24, 0x65, 0x71];
    let ne: [u8; 3] = [0x24, 0x6e, 0x65];
    let lt: [u8; 3] = [0x24, 0x6c, 0x74];
    let lte: [u8; 4] = [0x24, 0x6c, 0x74, 0x65];
    let gt: [u8; 3] = [0x24, 0x67, 0x74];
    let gte: [u8; 4] = [0x24, 0x67, 0x74, 0x65];
    let in_: [u8; 3] = [0x24, 0x69, 0x6e];
    let nin: [u8; 4] = [0x24, 0x6e, 0x69, 0x6e];
    assert(eq@ =~= name_eq() && ne@ =~= name_ne() && lt@ =~= name_lt() && lte@ =~= name_lte());
    assert(gt@ =~= name_gt() && gte@ =~= name_gte() && in_@ =~= name_in() && nin@ =~= name_nin());
    if bytes_eq(n, &eq) {
        0
    } else if bytes_eq(n, &ne) {
        1
    } else if bytes_eq(n, &lt) {
        2
    } else if bytes_eq(n, &lte) {
        3
    } else if bytes_eq(n, &gt) {
        4
    } else if bytes_eq(n, &gte) {
        5
    } else if bytes_eq(n, &in_) {
        6
    } else if bytes_eq(n, &nin) {
        7
    } else {
        -1
    }
}

/// Which logical key `k` is: 1 for `$and`, 2 for `$or`, 3 for `$not`, else 0.
fn logic_code(k: &[u8]) -> (r: u8)
    ensures
        r == 1 <==> k@ == name_and(),
        r == 2 <==> k@ == name_or(),
        r == 3 <==> k@ == name_not(),
        r <= 3,
{
    let and: [u8; 4] = [0x24, 0x61, 0x6e, 0x64];
    let or: [u8; 3] = [0x24, 0x6f, 0x72];
    let not: [u8; 4] = [0x24, 0x6e, 0x6f, 0x74];
    assert(and@ =~= name_and() && or@ =~= name_or() && not@ =~= name_not());
    if bytes_eq(k, &and) {
        1
    } else if bytes_eq(k, &or) {
        2
    } else if bytes_eq(k, &not) {
        3
    } else {
        0
    }
}

/// Reads the string at the cursor, tag and length included.
fn read_key(cursor: &mut ValueCursor) -> (r: Option<Vec<u8>>)
    requires
        old(cursor).wf(),
    ensures
        final(cursor).wf(),
        final(cursor).data() == old(cursor).data(),
        match key_at(old(cursor).data(), old(cursor).pos()) {
            Some((k, j)) => r is Some && r->0@ == k && final(cursor).pos() == j,
            None => r is None,
        },
{
    let ghost s = cursor.data();
    let ghost i = cursor.pos();
    let remaining = cursor.get_value_ref().len() - cursor.get_index();
    if remaining < 5 {
        return None;
    }
    if cursor.peek() != STRING {
        return None;
    }
    cursor.skip_next();
    let b = cursor.read_by(4);
    let len = le32_from(b[0], b[1], b[2], b[3]);
    assert(len == le32_at(s, i + 1));
    if len as usize > remaining - 5 {
        return None;
    }
    let bytes = cursor.read_by(len as usize);
    Some(slice_to_vec(bytes))
}

/// Reads the scalar operand at the cursor.
fn read_value(cursor: &mut ValueCursor) -> (r: Result<EqualityValue, DbError>)
    requires
        old(cursor).wf(),
    ensures
        final(cursor).wf(),
        final(cursor).data() == old(cursor).data(),
        match value_at(old(cursor).data(), old(cursor).pos()) {
            Ok((v, j)) => r is Ok && r->Ok_0@ == v && final(cursor).pos() == j,
            Err(e) => r == Err::<EqualityValue, DbError>(e),
        },
{
    let ghost s = cursor.data();
    let ghost i = cursor.pos();
    if cursor.get_index() >= cursor.get_value_ref().len() {
        return Err(DbError::MalformedTson);
    }
    let tag = cursor.peek();
    if tag == STRING {
        match read_key(cursor) {
            Some(b) => Ok(EqualityValue::String(b)),
            None => Err(DbError::MalformedTson),
        }
    } else if tag == NUMBER {
        if cursor.get_value_ref().len() - cursor.get_index() < 9 {
            return Err(DbError::MalformedTson);
        }
        cursor.skip_next();
        let b = cursor.read_by(8);
        let bits = le64_from(b);
        assert(b@ =~= s.subrange(i + 1, i + 9));
        assert(le64_at(b@, 0) == le64_at(s, i + 1));
        Ok(EqualityValue::Number(bits))
    } else if tag == TRUE {
        cursor.skip_next();
        Ok(EqualityValue::True)
    } else if tag == FALSE {
        cursor.skip_next();
        Ok(EqualityValue::False)
    } else if tag == NULL {
        cursor.skip_next();
        Ok(EqualityValue::Null)
    } else {
        Err(DbError::InvalidQuery)
    }
}

/// Reads the operand of an ordering operator at the cursor.
fn read_comparison(cursor: &mut ValueCursor) -> (r: Result<ComparisonValue, DbError>)
    requires
        old(cursor).wf(),
    ensures
        final(cursor).wf(),
        final(cursor).data() == old(cursor).data(),
        match comparison_at(old(cursor).data(), old(cursor).pos()) {
            Ok((v, j)) => r is Ok && r->Ok_0@ == v && final(cursor).pos() == j,
            Err(e) => r == Err::<ComparisonValue, DbError>(e),
        },
{
    if cursor.get_index() < cursor.get_value_ref().len() {
        let tag = cursor.peek();
        if tag != STRING && tag != NUMBER {
            return Err(DbError::InvalidQuery);
        }
    }
    match read_value(cursor) {
        Ok(EqualityValue::String(b)) => Ok(ComparisonValue::String(b)),
        Ok(EqualityValue::Number(n)) => Ok(ComparisonValue::Number(n)),
        Ok(_) => Err(DbError::InvalidQuery),
        Err(e) => Err(e),
    }
}

/// Reads the array operand of `$in` or `$nin` at the cursor.
fn read_array(cursor: &mut ValueCursor) -> (r: Result<Vec<EqualityValue>, DbError>)
    requires
        old(cursor).wf(),
    ensures
        final(cursor).wf(),
        final(cursor).data() == old(cursor).data(),
        match array_at(old(cursor).data(), old(cursor).pos()) {
            Ok((v, j)) => r is Ok && values_view(r->Ok_0@) == v && final(cursor).pos() == j,
            Err(e) => r == Err::<Vec<EqualityValue>, DbError>(e),
        },
{
    let ghost s = cursor.data();
    if cursor.get_index() >= cursor.get_value_ref().len() {
        return Err(DbError::MalformedTson);
    }
    if cursor.peek() != ARRAY_BEGIN {
        return Err(DbError::InvalidQuery);
    }
    if cursor.get_value_ref().len() - cursor.get_index() < 5 {
        return Err(DbError::MalformedTson);
    }
    cursor.skip_by(5);
    let mut values: Vec<EqualityValue> = Vec::new();
    let ghost start = cursor.pos();
    proof {
        if let Ok((l, m)) = array_items(s, start) {
            assert(values_view(values@) + l =~= l);
        }
    }
    loop
        invariant
            cursor.wf(),
            cursor.data() == s,
            s == old(cursor).data(),
            array_at(s, old(cursor).pos()) == array_items(s, start),
            array_items(s, start) == pre_at(values_view(values@), array_items(s, cursor.pos())),
        decreases s.len() - cursor.pos(),
    {
        let i = cursor.get_index();
        if cursor.get_index() >= cursor.get_value_ref().len() {
            return Err(DbError::MalformedTson);
        }
        let tag = cursor.peek();
        if tag == SEPARATOR {
            cursor.skip_next();
        } else if tag == ARRAY_END {
            cursor.skip_next();
            assert(values_view(values@) + Seq::<ValueModel>::empty() =~= values_view(values@));
            return Ok(values);
        } else {
            match read_value(cursor) {
                Ok(v) => {
                    if cursor.get_index() <= i {
                        return Err(DbError::MalformedTson);
                    }
                    proof {
                        lemma_pre_at_push(values_view(values@), v@, array_items(s, cursor.pos()));
                    }
                    let ghost before = values@;
                    values.push(v);
                    assert(values_view(values@) =~= values_view(before).push(v@));
                },
                Err(e) => {
                    return Err(e);
                },
            }
        }
    }
}

/// Reads the operand of operator `code` at the cursor.
fn read_operand(cursor: &mut ValueCursor, code: i8) -> (r: Result<Operation, DbError>)
    requires
        old(cursor).wf(),
        0 <= code <= 7,
    ensures
        final(cursor).wf(),
        final(cursor).data() == old(cursor).data(),
        match operand_at(code as int, old(cursor).data(), old(cursor).pos()) {
            Ok((op, j)) => r is Ok && r->Ok_0@ == op && final(cursor).pos() == j,
            Err(e) => r == Err::<Operation, DbError>(e),
        },
{
    if code <= 1 {
        match read_value(cursor) {
            Ok(v) => Ok(if code == 0 { Operation::Eq(v) } else { Operation::Ne(v) }),
            Err(e) => Err(e),
        }
    } else if code <= 5 {
        match read_comparison(cursor) {
            Ok(v) => Ok(
                if code == 2 {
                    Operation::Lt(v)
                } else if code == 3 {
                    Operation::Lte(v)
                } else if code == 4 {
                    Operation::Gt(v)
                } else {
                    Operation::Gte(v)
                },
            ),
            Err(e) => Err(e),
        }
    } else {
        match read_array(cursor) {
            Ok(v) => Ok(if code == 6 { Operation::In(v) } else { Operation::Nin(v) }),
            Err(e) => Err(e),
        }
    }
}

proof fn lemma_split_path_len(k: Seq<u8>)
    ensures
        split_path(k).len() >= 1,
    decreases k.len(),
{
    if k.len() > 0 {
        lemma_split_path_len(k.drop_last());
    }
}

/// Splits a dotted key into the segments of its path.
pub fn parse_keys(key: &[u8]) -> (r: Vec<Vec<u8>>)
    ensures
        path_view(r@) == split_path(key@),
{
    let mut keys: Vec<Vec<u8>> = Vec::new();
    let mut accumulated: Vec<u8> = Vec::new();
    let mut j: usize = 0;
    assert(key@.subrange(0, 0) =~= Seq::<u8>::empty());
    assert(path_view(keys@).push(accumulated@) =~= seq![Seq::<u8>::empty()]);
    while j < key.len()
        invariant
            j <= key@.len(),
            path_view(keys@).push(accumulated@) == split_path(key@.subrange(0, j as int)),
        decreases key@.len() - j,
    {
        let v = key[j];
        let ghost prev = key@.subrange(0, j as int);
        let ghost next = key@.subrange(0, j + 1);
        assert(next.drop_last() =~= prev);
        assert(next.last() == v);
        proof {
            lemma_split_path_len(prev);
        }
        let ghost before_keys = keys@;
        let ghost before_acc = accumulated@;
        if v == 0x2e {
            keys.push(accumulated);
            accumulated = Vec::new();
            assert(path_view(keys@) =~= path_view(before_keys).push(before_acc));
            assert(path_view(keys@).push(accumulated@) =~= split_path(prev).push(Seq::empty()));
        } else {
            accumulated.push(v);
            assert(path_view(keys@).push(accumulated@) =~= split_path(prev).update(
                split_path(prev).len() - 1,
                split_path(prev).last().push(v),
            ));
        }
        j = j + 1;
    }
    assert(key@.subrange(0, j as int) =~= key@);
    let ghost before_keys = keys@;
    keys.push(accumulated);
    assert(path_view(keys@) =~= path_view(before_keys).push(accumulated@));
    keys
}

/// The view of an optional key.
pub open spec fn key_view(k: Option<Vec<u8>>) -> Option<Seq<u8>> {
    match k {
        Some(v) => Some(v@),
        None => None,
    }
}

/// Reads the field operations of an operation-form query.
struct OperationParser {
    cursor: ValueCursor,
    key: Option<Vec<u8>>,
    operations: Vec<NamespacedOperation>,
}

impl OperationParser {
    fn new(tson: Vec<u8>) -> (r: OperationParser)
        ensures
            r.cursor.wf(),
            r.cursor.data() == tson@,
            r.cursor.pos() == 0,
            r.key is None,
            r.operations@.len() == 0,
    {
        OperationParser { cursor: ValueCursor::new(tson), key: None, operations: Vec::new() }
    }

    fn add_operation(&mut self, operation: Operation)
        requires
            old(self).key is Some,
        ensures
            final(self).operations@ == old(self).operations@.push(
                NamespacedOperation {
                    namespace: final(self).operations@.last().namespace,
                    operation,
                },
            ),
            path_view(final(self).operations@.last().namespace@) == split_path(
                old(self).key->0@,
            ),
            final(self).cursor == old(self).cursor,
            final(self).key == old(self).key,
    {
        let namespace = match &self.key {
            Some(k) => parse_keys(k.as_slice()),
            None => Vec::new(),
        };
        self.operations.push(NamespacedOperation { namespace, operation });
    }

    /// Reads the whole query.
    fn parse(self) -> (r: Result<Vec<NamespacedOperation>, DbError>)
        requires
            self.cursor.wf(),
            self.cursor.pos() == 0,
            self.key is None,
            self.operations@.len() == 0,
        ensures
            match ops_from(self.cursor.data(), 0, None) {
                Ok(ops) => r is Ok && ops_view(r->Ok_0@) == ops,
                Err(e) => r == Err::<Vec<NamespacedOperation>, DbError>(e),
            },
    {
        let mut p = self;
        let ghost s = p.cursor.data();
        proof {
            if let Ok(l) = ops_from(s, 0, None) {
                assert(ops_view(p.operations@) + l =~= l);
            }
        }
        while p.cursor.get_index() < p.cursor.get_value_ref().len()
            invariant
                p.cursor.wf(),
                p.cursor.data() == s,
                s == self.cursor.data(),
                ops_from(s, 0, None) == pre(
                    ops_view(p.operations@),
                    ops_from(s, p.cursor.pos(), key_view(p.key)),
                ),
            decreases s.len() - p.cursor.pos(),
        {
            let i = p.cursor.get_index();
            let tag = p.cursor.peek();
            if tag == STRING {
                let string = match read_key(&mut p.cursor) {
                    Some(k) => k,
                    None => {
                        return Err(DbError::MalformedTson);
                    },
                };
                let j = p.cursor.get_index();
                let ghost k = string@;
                let code = operator_code(string.as_slice());
                match p.key {
                    None => {
                        if code >= 0 {
                            return Err(DbError::InvalidQuery);
                        }
                        if p.cursor.get_value_ref().len() - j <= 1 || p.cursor.peek() != PAIR {
                            return Err(DbError::MalformedTson);
                        }
                        p.cursor.skip_next();
                        if p.cursor.peek() == OBJECT_BEGIN {
                            if p.cursor.get_value_ref().len() - j < 6 {
                                return Err(DbError::MalformedTson);
                            }
                            p.cursor.skip_by(5);
                            p.key = Some(string);
                        } else {
                            p.key = Some(string);
                            let value = match read_value(&mut p.cursor) {
                                Ok(v) => v,
                                Err(e) => {
                                    return Err(e);
                                },
                            };
                            let ghost before = p.operations@;
                            let ghost v = value@;
                            p.add_operation(Operation::Eq(value));
                            p.key = None;
                            proof {
                                lemma_pre_push(
                                    ops_view(before),
                                    (split_path(k), OpModel::Eq(v)),
                                    ops_from(s, p.cursor.pos(), None),
                                );
                            }
                            assert(ops_view(p.operations@) =~= ops_view(before).push(
                                (split_path(k), OpModel::Eq(v)),
                            ));
                        }
                    },
                    Some(_) => {
                        if code < 0 {
                            return Err(DbError::InvalidQuery);
                        }
                        if j >= p.cursor.get_value_ref().len() || p.cursor.peek() != PAIR {
                            return Err(DbError::MalformedTson);
                        }
                        p.cursor.skip_next();
                        let operation = match read_operand(&mut p.cursor, code) {
                            Ok(o) => o,
                            Err(e) => {
                                return Err(e);
                            },
                        };
                        if p.cursor.get_index() <= i {
                            return Err(DbError::MalformedTson);
                        }
                        let ghost before = p.operations@;
                        let ghost op = operation@;
                        let ghost key = p.key->0@;
                        p.add_operation(operation);
                        proof {
                            lemma_pre_push(
                                ops_view(before),
                                (split_path(key), op),
                                ops_from(s, p.cursor.pos(), key_view(p.key)),
                            );
                        }
                        assert(ops_view(p.operations@) =~= ops_view(before).push(
                            (split_path(key), op),
                        ));
                    },
                }
            } else if tag == OBJECT_END && p.key.is_some() {
                p.cursor.skip_next();
                p.key = None;
            } else if tag == SEPARATOR || tag == ARRAY_END {
                p.cursor.skip_next();
            } else {
                return Err(DbError::MalformedTson);
            }
        }
        assert(ops_view(p.operations@) + Seq::empty() =~= ops_view(p.operations@));
        Ok(p.operations)
    }
}

/// The values of a list of queries.
pub open spec fn queries_view(v: Seq<LogicalOperation>) -> Seq<QueryModel> {
    v.map_values(|q: LogicalOperation| query_view(q))
}

proof fn lemma_query_view_lists(v: Vec<LogicalOperation>)
    ensures
        query_view(LogicalOperation::And(v)) == QueryModel::And(queries_view(v@)),
        query_view(LogicalOperation::Or(v)) == QueryModel::Or(queries_view(v@)),
{
    if let QueryModel::And(x) = query_view(LogicalOperation::And(v)) {
        assert(x =~= queries_view(v@));
    }
    if let QueryModel::Or(x) = query_view(LogicalOperation::Or(v)) {
        assert(x =~= queries_view(v@));
    }
}

/// Moves the cursor past the value at it.
fn skip_value(cursor: &mut ValueCursor) -> (r: bool)
    requires
        old(cursor).wf(),
    ensures
        final(cursor).wf(),
        final(cursor).data() == old(cursor).data(),
        r == (value_end(old(cursor).data(), old(cursor).pos()) >= 0),
        r ==> final(cursor).pos() == value_end(old(cursor).data(), old(cursor).pos()),
{
    let ghost s = cursor.data();
    let ghost i = cursor.pos();
    let remaining = cursor.get_value_ref().len() - cursor.get_index();
    if remaining == 0 {
        return false;
    }
    let tag = cursor.peek();
    if tag == STRING {
        match read_key(cursor) {
            Some(_) => true,
            None => false,
        }
    } else if tag == NUMBER {
        if remaining < 9 {
            return false;
        }
        cursor.skip_by(9);
        true
    } else if tag == TRUE || tag == FALSE || tag == NULL {
        cursor.skip_next();
        true
    } else if tag == OBJECT_BEGIN || tag == ARRAY_BEGIN {
        if remaining < 5 {
            return false;
        }
        cursor.skip_next();
        let b = cursor.read_by(4);
        let len = le32_from(b[0], b[1], b[2], b[3]);
        assert(len == le32_at(s, i + 1));
        if len as usize > remaining - 5 {
            return false;
        }
        cursor.skip_by(len as usize);
        true
    } else {
        false
    }
}

/// The query of the object that opens at `i` in a `$and` or `$or` array, and
/// the index after the object.
pub open spec fn element_at(s: Seq<u8>, i: int) -> Result<(QueryModel, int), DbError>
    decreases s.len(), 0int, 0int,
{
    if i < 0 || i + 5 > s.len() {
        Err(DbError::MalformedTson)
    } else {
        let l = le32_at(s, i + 1) as int;
        if l < 1 || i + 5 + l > s.len() {
            Err(DbError::MalformedTson)
        } else {
            match query_of(s.subrange(i + 5, i + 4 + l)) {
                Ok(q) => Ok((q, i + 5 + l)),
                Err(e) => Err(e),
            }
        }
    }
}

proof fn lemma_element_at(s: Seq<u8>, i: int)
    requires
        0 <= i,
        i + 5 <= s.len(),
        1 <= le32_at(s, i + 1),
        i + 5 + le32_at(s, i + 1) <= s.len(),
    ensures
        element_at(s, i) == match query_of(s.subrange(i + 5, i + 4 + le32_at(s, i + 1))) {
            Ok(q) => Ok((q, i + 5 + le32_at(s, i + 1))),
            Err(e) => Err(e),
        },
{
}

/// Reads the object at the cursor as a query.
#[verifier::spinoff_prover]
#[verifier::rlimit(100)]
fn read_element(cursor: &mut ValueCursor) -> (r: Result<LogicalOperation, DbError>)
    requires
        old(cursor).wf(),
    ensures
        final(cursor).wf(),
        final(cursor).data() == old(cursor).data(),
        match element_at(old(cursor).data(), old(cursor).pos()) {
            Ok((q, m)) => r is Ok && query_view(r->Ok_0) == q && final(cursor).pos() == m,
            Err(e) => r == Err::<LogicalOperation, DbError>(e),
        },
    decreases old(cursor).data().len(), 0int, 0int,
{
    let ghost s = cursor.data();
    let i = cursor.get_index();
    let remaining = cursor.get_value_ref().len() - i;
    if remaining < 5 {
        return Err(DbError::MalformedTson);
    }
    cursor.skip_next();
    let b = cursor.read_by(4);
    let len = le32_from(b[0], b[1], b[2], b[3]);
    assert(len == le32_at(s, i + 1));
    if len < 1 || len as usize > remaining - 5 {
        return Err(DbError::MalformedTson);
    }
    let begin = cursor.get_index();
    let end = begin + (len as usize) - 1;
    let inner = slice_to_vec(cursor.read_range(begin..end));
    assert(inner@ == s.subrange(i + 5, i + 4 + len));
    proof {
        lemma_element_at(s, i as int);
    }
    cursor.skip_by(len as usize);
    match parse_interior(inner) {
        Ok(q) => Ok(q),
        Err(e) => Err(e),
    }
}

/// Reads the objects of a `$and` or `$or` array, each as a query, up to the
/// array's end tag.
fn read_elements(cursor: &mut ValueCursor) -> (r: Result<Vec<LogicalOperation>, DbError>)
    requires
        old(cursor).wf(),
    ensures
        final(cursor).wf(),
        final(cursor).data() == old(cursor).data(),
        match elements_from(old(cursor).data(), old(cursor).pos()) {
            Ok((l, m)) => r is Ok && queries_view(r->Ok_0@) == l && final(cursor).pos() == m,
            Err(e) => r == Err::<Vec<LogicalOperation>, DbError>(e),
        },
    decreases old(cursor).data().len(), 0int, 1int,
{
    let ghost s = cursor.data();
    let ghost start = cursor.pos();
    let mut operations: Vec<LogicalOperation> = Vec::new();
    proof {
        if let Ok((l, m)) = elements_from(s, start) {
            assert(queries_view(operations@) + l =~= l);
        }
    }
    loop
        invariant
            cursor.wf(),
            cursor.data() == s,
            s == old(cursor).data(),
            start == old(cursor).pos(),
            elements_from(s, start) == pre_at(queries_view(operations@), elements_from(s, cursor.pos())),
        decreases s.len() - cursor.pos(),
    {
        let i = cursor.get_index();
        let remaining = cursor.get_value_ref().len() - i;
        if remaining == 0 {
            return Err(DbError::MalformedTson);
        }
        let tag = cursor.peek();
        if tag == SEPARATOR {
            cursor.skip_next();
        } else if tag == ARRAY_END {
            cursor.skip_next();
            assert(queries_view(operations@) + Seq::<QueryModel>::empty() =~= queries_view(operations@));
            return Ok(operations);
        } else if tag == OBJECT_BEGIN {
            let q = match read_element(cursor) {
                Ok(q) => q,
                Err(e) => {
                    return Err(e);
                },
            };
            proof {
                lemma_pre_at_push(queries_view(operations@), query_view(q), elements_from(s, cursor.pos()));
            }
            let ghost before = operations@;
            operations.push(q);
            assert(queries_view(operations@) =~= queries_view(before).push(query_view(q)));
        } else {
            return Err(DbError::InvalidQuery);
        }
    }
}

/// Reads the keys of a logic-form query, each as a query.
struct LogicParser {
    cursor: ValueCursor,
    operations: Vec<LogicalOperation>,
}

impl LogicParser {
    fn new(tson: Vec<u8>) -> (r: LogicParser)
        ensures
            r.cursor.wf(),
            r.cursor.data() == tson@,
            r.cursor.pos() == 0,
            r.operations@.len() == 0,
    {
        LogicParser { cursor: ValueCursor::new(tson), operations: Vec::new() }
    }

    fn parse(self) -> (r: Result<Vec<LogicalOperation>, DbError>)
        requires
            self.cursor.wf(),
            self.cursor.pos() == 0,
            self.operations@.len() == 0,
        ensures
            match logic_from(self.cursor.data(), 0) {
                Ok(l) => r is Ok && queries_view(r->Ok_0@) == l,
                Err(e) => r == Err::<Vec<LogicalOperation>, DbError>(e),
            },
        decreases self.cursor.data().len(), 1int, 0int,
    {
        let mut p = self;
        let ghost s = p.cursor.data();
        proof {
            if let Ok(l) = logic_from(s, 0) {
                assert(queries_view(p.operations@) + l =~= l);
            }
        }
        while p.cursor.get_index() < p.cursor.get_value_ref().len()
            invariant
                p.cursor.wf(),
                p.cursor.data() == s,
                s == self.cursor.data(),
                logic_from(s, 0) == pre(queries_view(p.operations@), logic_from(s, p.cursor.pos())),
            decreases s.len() - p.cursor.pos(),
        {
            let i = p.cursor.get_index();
            let tag = p.cursor.peek();
            if tag == SEPARATOR {
                p.cursor.skip_next();
            } else if tag == STRING {
                let string = match read_key(&mut p.cursor) {
                    Some(k) => k,
                    None => {
                        return Err(DbError::MalformedTson);
                    },
                };
                let j = p.cursor.get_index();
                if j >= p.cursor.get_value_ref().len() || p.cursor.peek() != PAIR {
                    return Err(DbError::MalformedTson);
                }
                p.cursor.skip_next();
                let code = logic_code(string.as_slice());
                let q;
                if code == 3 {
                    return Err(DbError::InvalidQuery);
                } else if code == 1 || code == 2 {
                    if p.cursor.get_index() >= p.cursor.get_value_ref().len() {
                        return Err(DbError::MalformedTson);
                    }
                    if p.cursor.peek() != ARRAY_BEGIN {
                        return Err(DbError::InvalidQuery);
                    }
                    if p.cursor.get_value_ref().len() - p.cursor.get_index() < 5 {
                        return Err(DbError::MalformedTson);
                    }
                    p.cursor.skip_by(5);
                    let list = match read_elements(&mut p.cursor) {
                        Ok(l) => l,
                        Err(e) => {
                            return Err(e);
                        },
                    };
                    if p.cursor.get_index() <= i {
                        return Err(DbError::MalformedTson);
                    }
                    proof {
                        lemma_query_view_lists(list);
                    }
                    q = if code == 1 { LogicalOperation::And(list) } else { LogicalOperation::Or(list) };
                } else {
                    if !skip_value(&mut p.cursor) {
                        return Err(DbError::MalformedTson);
                    }
                    let m = p.cursor.get_index();
                    if m <= i {
                        return Err(DbError::MalformedTson);
                    }
                    let pair = slice_to_vec(p.cursor.read_range(i..m));
                    let ops = match OperationParser::new(pair).parse() {
                        Ok(o) => o,
                        Err(e) => {
                            return Err(e);
                        },
                    };
                    q = LogicalOperation::Leaf(ops);
                }
                proof {
                    lemma_pre_push(queries_view(p.operations@), query_view(q), logic_from(s, p.cursor.pos()));
                }
                let ghost before = p.operations@;
                p.operations.push(q);
                assert(queries_view(p.operations@) =~= queries_view(before).push(query_view(q)));
            } else {
                return Err(DbError::MalformedTson);
            }
        }
        assert(queries_view(p.operations@) + Seq::empty() =~= queries_view(p.operations@));
        Ok(p.operations)
    }
}

/// Finds the first string of a query object's contents, skipping
/// separators, pair tags and whole values.
fn find_first_key(tson: Vec<u8>) -> (r: Option<Vec<u8>>)
    ensures
        match first_key(tson@, 0) {
            Some(k) => r is Some && r->0@ == k,
            None => r is None,
        },
{
    let ghost s = tson@;
    let mut cursor = ValueCursor::new(tson);
    while cursor.get_index() < cursor.get_value_ref().len()
        invariant
            cursor.wf(),
            cursor.data() == s,
            s == tson@,
            first_key(s, 0) == first_key(s, cursor.pos()),
        decreases s.len() - cursor.pos(),
    {
        let i = cursor.get_index();
        let tag = cursor.peek();
        if tag == STRING {
            return read_key(&mut cursor);
        } else if tag == SEPARATOR || tag == PAIR {
            cursor.skip_next();
        } else {
            if !skip_value(&mut cursor) {
                return None;
            }
            if cursor.get_index() <= i {
                return None;
            }
        }
    }
    None
}

/// Parses the contents of a query object, without its header and end tag.
fn parse_interior(tson: Vec<u8>) -> (r: Result<LogicalOperation, DbError>)
    ensures
        match query_of(tson@) {
            Ok(q) => r is Ok && query_view(r->Ok_0) == q,
            Err(e) => r == Err::<LogicalOperation, DbError>(e),
        },
    decreases tson@.len(), 2int, 0int,
{
    let logic = match find_first_key(slice_to_vec(tson.as_slice())) {
        Some(k) => logic_code(k.as_slice()) != 0,
        None => false,
    };
    if logic {
        let mut list = match LogicParser::new(tson).parse() {
            Ok(l) => l,
            Err(e) => {
                return Err(e);
            },
        };
        if list.len() == 0 {
            return Err(DbError::InvalidQuery);
        }
        if list.len() == 1 {
            let ghost l = list@;
            let q = list.pop().unwrap();
            assert(q == l[0]);
            return Ok(q);
        }
        proof {
            lemma_query_view_lists(list);
        }
        Ok(LogicalOperation::And(list))
    } else {
        match OperationParser::new(tson).parse() {
            Ok(ops) => Ok(LogicalOperation::Leaf(ops)),
            Err(e) => Err(e),
        }
    }
}

/// A query document in TSON, ready to be parsed.
pub struct QueryParser {
    tson: Vec<u8>,
}

impl QueryParser {
    /// The TSON of the query document.
    pub closed spec fn source(&self) -> Seq<u8> {
        self.tson@
    }

    pub fn new(tson: Vec<u8>) -> (r: QueryParser)
        ensures
            r.source() == tson@,
    {
        QueryParser { tson }
    }

    /// Parses the query: the outer object's header and end tag are checked
    /// and stripped, and the contents decide between operation and logic
    /// form by their first key.
    pub fn parse(self) -> (r: Result<LogicalOperation, DbError>)
        ensures
            parsed_as(self.source(), r),
    {
        let n = self.tson.len();
        if n < 6 || self.tson[0] != OBJECT_BEGIN || self.tson[n - 1] != OBJECT_END {
            return Err(DbError::MalformedTson);
        }
        let interior = slice_to_vec(&self.tson.as_slice()[5..n - 1]);
        parse_interior(interior)
    }
}

/// `r` is what parsing the query document `tson` gives.
pub open spec fn parsed_as(tson: Seq<u8>, r: Result<LogicalOperation, DbError>) -> bool {
    match parse_query(tson) {
        Ok(q) => r is Ok && query_view(r->Ok_0) == q,
        Err(e) => r == Err::<LogicalOperation, DbError>(e),
    }
}

/// Parsing is deterministic: two parses of the same TSON give the same tree,
/// or fail with the same error.
pub proof fn lemma_parse_deterministic(
    tson: Seq<u8>,
    r1: Result<LogicalOperation, DbError>,
    r2: Result<LogicalOperation, DbError>,
)
    requires
        parsed_as(tson, r1),
        parsed_as(tson, r2),
    ensures
        r1 is Ok <==> r2 is Ok,
        r1 is Ok ==> query_view(r1->Ok_0) == query_view(r2->Ok_0),
        r1 is Err ==> r1 == r2,
{
}

/// What a query asks for: every document, the document with one id, or the
/// documents that satisfy a predicate tree.
#[derive(Debug, PartialEq, Eq)]
pub enum Query {
    All,
    Id(Vec<u8>),
    By(LogicalOperation),
}

/// The single `_id` string that `q` asks for, if `q` asks for nothing else.
pub open spec fn id_only(q: QueryModel) -> Option<Seq<u8>> {
    match q {
        QueryModel::Leaf(ops) => if ops.len() == 1 && ops[0].0 == seq![seq![0x5fu8, 0x69u8, 0x64u8]] {
            match ops[0].1 {
                OpModel::Eq(ValueModel::Str(id)) => Some(id),
                _ => None,
            }
        } else {
            None
        },
        _ => None,
    }
}

impl Query {
    /// Classifies a parsed query: an equality on `_id` alone becomes a
    /// point lookup, anything else a filter.
    pub fn from_tree(tree: LogicalOperation) -> (r: Query)
        ensures
            match id_only(query_view(tree)) {
                Some(id) => r is Id && r->Id_0@ == id,
                None => r is By && query_view(r->By_0) == query_view(tree),
            },
    {
        match tree {
            LogicalOperation::Leaf(mut ops) => {
                let ghost v = ops_view(ops@);
                if ops.len() == 1 {
                    let is_id = {
                        let first = &ops[0];
                        let key: [u8; 3] = [0x5f, 0x69, 0x64];
                        first.namespace.len() == 1 && bytes_eq(first.namespace[0].as_slice(), &key)
                            && match &first.operation {
                            Operation::Eq(EqualityValue::String(_)) => true,
                            _ => false,
                        }
                    };
                    proof {
                        let key = seq![0x5fu8, 0x69u8, 0x64u8];
                        assert(v[0] == ops@[0]@);
                        if ops@[0].namespace@.len() == 1 {
                            assert(path_view(ops@[0].namespace@) =~= seq![ops@[0].namespace@[0]@]);
                        }
                        if v[0].0 == seq![key] {
                            assert(path_view(ops@[0].namespace@)[0] == key);
                        }
                    }
                    if is_id {
                        let ghost whole = ops@;
                        let first = ops.pop().unwrap();
                        assert(first == whole[0]);
                        match first.operation {
                            Operation::Eq(EqualityValue::String(id)) => {
                                return Query::Id(id);
                            },
                            _ => {
                                assert(false);
                                return Query::By(LogicalOperation::Leaf(Vec::new()));
                            },
                        }
                    }
                }
                Query::By(LogicalOperation::Leaf(ops))
            },
            other => Query::By(other),
        }
    }
}

/// `r` is the query that the query document `tson` states.
pub open spec fn query_result(tson: Seq<u8>, r: Result<Query, DbError>) -> bool {
    match parse_query(tson) {
        Ok(q) => r is Ok && match id_only(q) {
            Some(id) => r->Ok_0 is Id && r->Ok_0->Id_0@ == id,
            None => r->Ok_0 is By && query_view(r->Ok_0->By_0) == q,
        },
        Err(e) => r == Err::<Query, DbError>(e),
    }
}

impl Query {
    /// The query that a query document's TSON states.
    pub fn from_tson(tson: Vec<u8>) -> (r: Result<Query, DbError>)
        ensures
            query_result(tson@, r),
    {
        match QueryParser::new(tson).parse() {
            Ok(tree) => Ok(Query::from_tree(tree)),
            Err(e) => Err(e),
        }
    }

    /// The query that JSON text states; `{}` asks for every document. The
    /// numbers of the text arrive as the bit patterns of their values.
    pub fn new(json: String, numbers: Vec<u64>) -> (r: Result<Query, DbError>)
        requires
            encode_utf8(json@).len() <= MAX_INPUT,
        ensures
            encode_utf8(json@) == seq![0x7bu8, 0x7du8] ==> r == Ok::<Query, DbError>(Query::All),
            encode_utf8(json@) != seq![0x7bu8, 0x7du8] ==> {
                if accepted(lex(encode_utf8(json@)), numbers@) {
                    exists|t: Seq<u8>|
                        {
                            &&& tson_tokens(t) == Some(
                                bind_nums(lex(encode_utf8(json@))->0, payloads(numbers@)),
                            )
                            &&& framed(t)
                            &&& #[trigger] query_result(t, r)
                        }
                } else {
                    r == Err::<Query, DbError>(DbError::MalformedJson)
                }
            },
    {
        let empty: [u8; 2] = [0x7b, 0x7d];
        if bytes_eq(json.as_str().as_bytes(), &empty) {
            assert(empty@ =~= seq![0x7bu8, 0x7du8]);
            return Ok(Query::All);
        }
        assert(empty@ =~= seq![0x7bu8, 0x7du8]);
        let parser = JSONParser::new(json, numbers);
        match parser.parse() {
            Ok(tson) => {
                let ghost t = tson@;
                let r = Query::from_tson(tson);
                assert(query_result(t, r));
                r
            },
            Err(e) => Err(e),
        }
    }
}

} // verus!
