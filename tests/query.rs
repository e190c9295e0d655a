use tsondb::error::DbError;
use tsondb::json::{number_literals, JSONParser};
use tsondb::query::{
    ComparisonValue, EqualityValue, LogicalOperation, NamespacedOperation, Operation, Query,
    QueryParser,
};

fn bits_of(json: &str) -> Vec<u64> {
    number_literals(json.as_bytes())
        .unwrap()
        .iter()
        .map(|t| String::from_utf8(t.clone()).unwrap().parse::<f64>().unwrap().to_bits())
        .collect()
}

fn parse(json: &str) -> Result<LogicalOperation, DbError> {
    let tson = JSONParser::new(json.to_string(), bits_of(json)).parse().unwrap();
    QueryParser::new(tson).parse()
}

fn path(parts: &[&str]) -> Vec<Vec<u8>> {
    parts.iter().map(|p| p.as_bytes().to_vec()).collect()
}

fn num(x: f64) -> u64 {
    x.to_bits()
}

#[test]
fn operation_form_comparison() {
    let q = parse("{\"age\":{\"$gt\":18}}").unwrap();
    assert_eq!(
        q,
        LogicalOperation::Leaf(vec![NamespacedOperation {
            namespace: path(&["age"]),
            operation: Operation::Gt(ComparisonValue::Number(num(18.0))),
        }])
    );
}

#[test]
fn implicit_equality() {
    let q = parse("{\"name\":\"alice\"}").unwrap();
    assert_eq!(
        q,
        LogicalOperation::Leaf(vec![NamespacedOperation {
            namespace: path(&["name"]),
            operation: Operation::Eq(EqualityValue::String(b"alice".to_vec())),
        }])
    );
}

#[test]
fn dotted_path() {
    let q = parse("{\"a.b.c\":{\"$eq\":1}}").unwrap();
    assert_eq!(
        q,
        LogicalOperation::Leaf(vec![NamespacedOperation {
            namespace: path(&["a", "b", "c"]),
            operation: Operation::Eq(EqualityValue::Number(num(1.0))),
        }])
    );
}

#[test]
fn dotted_path_keeps_empty_segments() {
    let q = parse("{\"a..b.\":true}").unwrap();
    assert_eq!(
        q,
        LogicalOperation::Leaf(vec![NamespacedOperation {
            namespace: path(&["a", "", "b", ""]),
            operation: Operation::Eq(EqualityValue::True),
        }])
    );
}

#[test]
fn logical_composition() {
    let q = parse("{\"$or\":[{\"a\":1},{\"b\":{\"$lt\":2}}]}").unwrap();
    assert_eq!(
        q,
        LogicalOperation::Or(vec![
            LogicalOperation::Leaf(vec![NamespacedOperation {
                namespace: path(&["a"]),
                operation: Operation::Eq(EqualityValue::Number(num(1.0))),
            }]),
            LogicalOperation::Leaf(vec![NamespacedOperation {
                namespace: path(&["b"]),
                operation: Operation::Lt(ComparisonValue::Number(num(2.0))),
            }]),
        ])
    );
}

#[test]
fn several_logical_keys_are_joined_by_and() {
    let q = parse("{\"$and\":[{\"a\":null}],\"b\":{\"$ne\":false}}").unwrap();
    assert_eq!(
        q,
        LogicalOperation::And(vec![
            LogicalOperation::And(vec![LogicalOperation::Leaf(vec![NamespacedOperation {
                namespace: path(&["a"]),
                operation: Operation::Eq(EqualityValue::Null),
            }])]),
            LogicalOperation::Leaf(vec![NamespacedOperation {
                namespace: path(&["b"]),
                operation: Operation::Ne(EqualityValue::False),
            }]),
        ])
    );
}

#[test]
fn set_operators() {
    let q = parse("{\"t\":{\"$in\":[\"x\",3,null],\"$nin\":[]}}").unwrap();
    assert_eq!(
        q,
        LogicalOperation::Leaf(vec![
            NamespacedOperation {
                namespace: path(&["t"]),
                operation: Operation::In(vec![
                    EqualityValue::String(b"x".to_vec()),
                    EqualityValue::Number(num(3.0)),
                    EqualityValue::Null,
                ]),
            },
            NamespacedOperation { namespace: path(&["t"]), operation: Operation::Nin(vec![]) },
        ])
    );
}

#[test]
fn all_ordering_operators() {
    let q = parse("{\"n\":{\"$lt\":1,\"$lte\":2,\"$gt\":\"a\",\"$gte\":\"b\"}}").unwrap();
    let ops: Vec<Operation> = match q {
        LogicalOperation::Leaf(v) => v.into_iter().map(|o| o.operation).collect(),
        _ => panic!("expected a leaf"),
    };
    assert_eq!(
        ops,
        vec![
            Operation::Lt(ComparisonValue::Number(num(1.0))),
            Operation::Lte(ComparisonValue::Number(num(2.0))),
            Operation::Gt(ComparisonValue::String(b"a".to_vec())),
            Operation::Gte(ComparisonValue::String(b"b".to_vec())),
        ]
    );
}

#[test]
fn comparison_with_boolean_is_invalid() {
    assert_eq!(parse("{\"age\":{\"$gt\":true}}"), Err(DbError::InvalidQuery));
}

#[test]
fn nested_object_without_dots_is_invalid() {
    assert_eq!(parse("{\"a\":{\"b\":1}}"), Err(DbError::InvalidQuery));
}

#[test]
fn operator_outside_key_is_invalid() {
    assert_eq!(parse("{\"$eq\":1}"), Err(DbError::InvalidQuery));
}

#[test]
fn not_is_reserved() {
    assert_eq!(parse("{\"$not\":[{\"a\":1}]}"), Err(DbError::InvalidQuery));
}

#[test]
fn set_operator_needs_array() {
    assert_eq!(parse("{\"a\":{\"$in\":1}}"), Err(DbError::InvalidQuery));
}

#[test]
fn equality_with_array_is_invalid() {
    assert_eq!(parse("{\"a\":[1]}"), Err(DbError::InvalidQuery));
}

#[test]
fn logic_array_needs_objects() {
    assert_eq!(parse("{\"$or\":[1]}"), Err(DbError::InvalidQuery));
}

#[test]
fn truncated_query_is_malformed() {
    assert_eq!(QueryParser::new(vec![0x00, 1, 0]).parse(), Err(DbError::MalformedTson));
    assert_eq!(
        QueryParser::new(vec![0x00, 2, 0, 0, 0, 0x04, 0x01]).parse(),
        Err(DbError::MalformedTson)
    );
}

#[test]
fn empty_query_is_an_empty_leaf() {
    assert_eq!(parse("{}"), Ok(LogicalOperation::Leaf(vec![])));
}

#[test]
fn parsing_twice_gives_equal_trees() {
    let json = "{\"$or\":[{\"a\":1},{\"b\":{\"$in\":[1,\"x\"]}}]}";
    assert_eq!(parse(json), parse(json));
}

#[test]
fn query_all_by_id_and_by_predicate() {
    assert_eq!(Query::new("{}".to_string(), vec![]), Ok(Query::All));
    assert_eq!(
        Query::new("{\"_id\":\"42\"}".to_string(), vec![]),
        Ok(Query::Id(b"42".to_vec()))
    );
    let q = Query::new("{\"_id\":{\"$ne\":\"42\"}}".to_string(), vec![]).unwrap();
    assert!(matches!(q, Query::By(_)));
    assert_eq!(Query::new("{\"a\"".to_string(), vec![]), Err(DbError::MalformedJson));
}

#[test]
fn stray_end_tag_is_malformed() {
    let tson = vec![0x00, 2, 0, 0, 0, 0x01, 0x01];
    assert_eq!(QueryParser::new(tson).parse(), Err(DbError::MalformedTson));
}

#[test]
fn classification_skips_to_first_key() {
    let q = parse("{,\"$or\":[{\"a\":1}]}").unwrap();
    assert_eq!(
        q,
        LogicalOperation::Or(vec![LogicalOperation::Leaf(vec![NamespacedOperation {
            namespace: path(&["a"]),
            operation: Operation::Eq(EqualityValue::Number(num(1.0))),
        }])])
    );
}
