use tsondb::keys::{collection_bounds, concat_bytes, index_key, value_key, Collection};

const NS_BEGIN: [u8; 4] = [0xF4, 0x8F, 0x90, 0x9F];
const NS_END: [u8; 4] = [0xF4, 0x8F, 0x90, 0xA0];

#[test]
fn bounds_of_users() {
    let (lower, upper) = collection_bounds(b"users");
    let mut l = b"users".to_vec();
    l.extend(NS_BEGIN);
    let mut u = b"users".to_vec();
    u.extend(NS_END);
    assert_eq!(lower, l);
    assert_eq!(upper, u);
    assert_eq!(String::from_utf8(lower).unwrap(), "users\u{10F41F}");
    assert_eq!(String::from_utf8(upper).unwrap(), "users\u{10F420}");
}

#[test]
fn index_keys_sort_before_value_keys() {
    let i = index_key(b"users", b"age", b"42");
    let v = value_key(b"users", b"42");
    assert!(i < v);
    let mut expected = b"users".to_vec();
    expected.extend(NS_BEGIN);
    expected.extend(b"0age42");
    assert_eq!(i, expected);
}

#[test]
fn value_keys_follow_id_order() {
    let a = value_key(b"users", b"abc");
    let b = value_key(b"users", b"abd");
    let c = value_key(b"users", b"abdx");
    assert!(a < b && b < c);
    let mut expected = b"users".to_vec();
    expected.extend(NS_BEGIN);
    expected.extend(b"1abc");
    assert_eq!(a, expected);
}

#[test]
fn bounds_bracket_the_collection() {
    let (lower, upper) = collection_bounds(b"users");
    let v = value_key(b"users", b"zzz");
    let i = index_key(b"users", b"", b"");
    assert!(lower <= i && i < upper);
    assert!(lower <= v && v < upper);
    let other = value_key(b"usersx", b"1");
    assert!(!(lower <= other && other < upper));
    let before = value_key(b"user", b"1");
    assert!(!(lower <= before && before < upper));
}

#[test]
fn collection_keys_and_name() {
    let c = Collection::new("docs".to_string());
    assert_eq!(c.get_name(), "docs");
    assert_eq!(c.values_key(b"7"), value_key(b"docs", b"7"));
    assert_eq!(c.index_key(b"n", b"7"), index_key(b"docs", b"n", b"7"));
    assert_eq!(c.bounds(), collection_bounds(b"docs"));
}

#[test]
fn collection_insert_builds_key_and_document() {
    let c = Collection::new("docs".to_string());
    let (key, tson) = c.insert("7".to_string(), "{\"v\":true}".to_string(), vec![]).unwrap();
    assert_eq!(key, value_key(b"docs", b"7"));
    assert_eq!(tson[0], 0x00);
    assert_eq!(&tson[5..13], &[0x04, 3, 0, 0, 0, b'_', b'i', b'd'][..]);
    assert_eq!(*tson.last().unwrap(), 0x01);
    assert!(c.insert("7".to_string(), "{\"v\":".to_string(), vec![]).is_err());
}

#[test]
fn concat_joins_parts() {
    let r = concat_bytes(vec![b"ab".to_vec(), vec![], b"c".to_vec()]);
    assert_eq!(r, b"abc".to_vec());
    assert_eq!(concat_bytes(vec![]), Vec::<u8>::new());
}
