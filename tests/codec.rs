use tsondb::error::DbError;
use tsondb::json::{number_literals, JSONParser};
use tsondb::tson::{number_fields, TSONParser};

fn bits_of(json: &str) -> Vec<u64> {
    number_literals(json.as_bytes())
        .unwrap()
        .iter()
        .map(|t| String::from_utf8(t.clone()).unwrap().parse::<f64>().unwrap().to_bits())
        .collect()
}

fn encode(json: &str) -> Vec<u8> {
    JSONParser::new(json.to_string(), bits_of(json)).parse().unwrap()
}

fn decode(tson: &[u8]) -> String {
    let texts: Vec<Vec<u8>> = number_fields(tson)
        .unwrap()
        .iter()
        .map(|b| {
            let mut a = [0u8; 8];
            a.copy_from_slice(b);
            f64::from_le_bytes(a).to_string().into_bytes()
        })
        .collect();
    String::from_utf8(TSONParser::new(tson.to_vec(), texts).parse().unwrap()).unwrap()
}

fn le32(n: u32) -> Vec<u8> {
    n.to_le_bytes().to_vec()
}

#[test]
fn insert_without_id_prepends_generated_id() {
    let id = "123e4567-e89b-42d3-a456-426614174000".to_string();
    assert_eq!(id.len(), 36);
    let json = "{\"a\":1}";
    let tson = JSONParser::new_with_id(id.clone(), json.to_string(), bits_of(json)).parse().unwrap();
    let mut expected = vec![0x00];
    let mut body = vec![0x04];
    body.extend(le32(3));
    body.extend(b"_id");
    body.push(0x09);
    body.push(0x04);
    body.extend(le32(36));
    body.extend(id.as_bytes());
    body.push(0x0A);
    body.push(0x04);
    body.extend(le32(1));
    body.extend(b"a");
    body.push(0x09);
    body.push(0x05);
    body.extend(1.0f64.to_le_bytes());
    body.push(0x01);
    expected.extend(le32(body.len() as u32));
    expected.extend(body);
    assert_eq!(tson, expected);
}

#[test]
fn round_trip_of_scalars_and_array() {
    let json = "{\"x\":true,\"y\":null,\"z\":[1,2]}";
    assert_eq!(decode(&encode(json)), json);
}

#[test]
fn round_trip_keeps_key_order_and_strings() {
    let json = "{\"b\":\"two\",\"a\":[false,{\"c\":\"d\"}],\"e\":-2.5}";
    assert_eq!(decode(&encode(json)), json);
}

#[test]
fn round_trip_with_literal_texts_is_exact() {
    let json = "[1.50,2e3,{\"k\":0.1}]";
    let tson = encode(json);
    let texts = number_literals(json.as_bytes()).unwrap();
    let back = TSONParser::new(tson, texts).parse().unwrap();
    assert_eq!(back, json.as_bytes().to_vec());
}

#[test]
fn composite_length_spans_to_its_end_tag() {
    let tson = encode("{\"a\":[1,{\"b\":2}],\"c\":{}}");
    assert_eq!(tson[0], 0x00);
    let outer = u32::from_le_bytes([tson[1], tson[2], tson[3], tson[4]]) as usize;
    assert_eq!(outer, tson.len() - 5);
    assert_eq!(tson[4 + outer], 0x01);
    // the array after "a" and its pair tag
    let at = 5 + 6 + 1;
    assert_eq!(tson[at], 0x02);
    let inner = u32::from_le_bytes([tson[at + 1], tson[at + 2], tson[at + 3], tson[at + 4]]) as usize;
    assert_eq!(tson[at + 4 + inner], 0x03);
    // an empty object holds only its end tag
    let empty = encode("{}");
    assert_eq!(empty, vec![0x00, 1, 0, 0, 0, 0x01]);
}

#[test]
fn number_is_little_endian_double() {
    let tson = encode("[18]");
    let mut expected = vec![0x02];
    expected.extend(le32(10));
    expected.push(0x05);
    expected.extend(18.0f64.to_le_bytes());
    expected.push(0x03);
    assert_eq!(tson, expected);
}

#[test]
fn strings_are_copied_verbatim() {
    let tson = encode("[\"a\\\"b\"]");
    let mut expected = vec![0x02];
    expected.extend(le32(10));
    expected.push(0x04);
    expected.extend(le32(4));
    expected.extend(b"a\\\"b");
    expected.push(0x03);
    assert_eq!(tson, expected);
}

#[test]
fn empty_text_gives_empty_tson() {
    assert_eq!(encode(""), Vec::<u8>::new());
}

#[test]
fn unclosed_string_is_malformed() {
    assert_eq!(number_literals(b"{\"a"), None);
    let r = JSONParser::new("{\"a".to_string(), vec![]).parse();
    assert_eq!(r, Err(DbError::MalformedJson));
}

#[test]
fn mismatched_bracket_is_malformed() {
    let r = JSONParser::new("{\"a\":[}".to_string(), vec![]).parse();
    assert_eq!(r, Err(DbError::MalformedJson));
}

#[test]
fn unclosed_composite_is_malformed() {
    let r = JSONParser::new("{\"a\":true".to_string(), vec![]).parse();
    assert_eq!(r, Err(DbError::MalformedJson));
}

#[test]
fn stray_close_is_malformed() {
    let r = JSONParser::new("}".to_string(), vec![]).parse();
    assert_eq!(r, Err(DbError::MalformedJson));
}

#[test]
fn misspelled_literal_is_malformed() {
    let r = JSONParser::new("[tru]".to_string(), vec![]).parse();
    assert_eq!(r, Err(DbError::MalformedJson));
}

#[test]
fn missing_number_value_is_malformed() {
    let r = JSONParser::new("[1,2]".to_string(), vec![1.0f64.to_bits()]).parse();
    assert_eq!(r, Err(DbError::MalformedJson));
    let r = JSONParser::new("[1]".to_string(), vec![1.0f64.to_bits(), 2.0f64.to_bits()]).parse();
    assert_eq!(r, Err(DbError::MalformedJson));
}

#[test]
fn number_running_to_end_is_malformed() {
    assert_eq!(number_literals(b"12"), None);
}

#[test]
fn number_literals_in_order() {
    let lits = number_literals(b"{\"a\":1,\"b\":[2.5,-3]}").unwrap();
    assert_eq!(lits, vec![b"1".to_vec(), b"2.5".to_vec(), b"-3".to_vec()]);
}

#[test]
fn number_fields_in_order() {
    let tson = encode("[1,{\"x\":2}]");
    let fields = number_fields(&tson).unwrap();
    assert_eq!(fields, vec![1.0f64.to_le_bytes().to_vec(), 2.0f64.to_le_bytes().to_vec()]);
    assert_eq!(number_fields(&[0x05, 1, 2]), None);
}

#[test]
fn decoder_rejects_unknown_tag() {
    let r = TSONParser::new(vec![0x02, 0, 0, 0, 0, 0x42, 0x03], vec![]).parse();
    assert_eq!(r, Err(DbError::MalformedTson));
}

#[test]
fn decoder_rejects_truncated_string() {
    let r = TSONParser::new(vec![0x04, 9, 0, 0, 0, b'a'], vec![]).parse();
    assert_eq!(r, Err(DbError::MalformedTson));
}

#[test]
fn decoder_needs_one_text_per_number() {
    let tson = encode("[1]");
    assert_eq!(TSONParser::new(tson.clone(), vec![]).parse(), Err(DbError::MalformedTson));
    let two = vec![b"1".to_vec(), b"2".to_vec()];
    assert_eq!(TSONParser::new(tson, two).parse(), Err(DbError::MalformedTson));
}

#[test]
fn decoder_writes_literals() {
    let tson = vec![0x02, 6, 0, 0, 0, 0x06, 0x0A, 0x07, 0x0A, 0x08, 0x03];
    let out = TSONParser::new(tson, vec![]).parse().unwrap();
    assert_eq!(out, b"[true,false,null]".to_vec());
}

#[test]
fn forced_id_on_empty_object_keeps_separator() {
    let tson = JSONParser::new_with_id("x".to_string(), "{}".to_string(), vec![]).parse().unwrap();
    assert_eq!(tson[tson.len() - 2], 0x0A);
    assert_eq!(tson[tson.len() - 1], 0x01);
}
