use tsondb::cursor::ValueCursor;
use tsondb::extender::Extender;
use tsondb::parsed::Parsed;
use tsondb::tags::{le32_bytes, le32_from, le64_bytes};

#[test]
fn cursor_moves_and_reads() {
    let mut c = ValueCursor::new(vec![1, 2, 3, 4, 5]);
    assert_eq!(c.peek(), 1);
    assert_eq!(c.read_next(), 1);
    c.skip_next();
    assert_eq!(c.get_index(), 2);
    assert_eq!(c.read_by(2), &[3, 4][..]);
    c.skip_reverse_by(3);
    assert_eq!(c.get_index(), 1);
    c.skip_by(1);
    assert_eq!(c.read_range(0..2), &[1, 2][..]);
    c.skip_rest();
    assert_eq!(c.get_index(), 5);
    assert_eq!(c.get_value_ref(), &[1, 2, 3, 4, 5][..]);
    assert_eq!(c.get_value(), vec![1, 2, 3, 4, 5]);
}

#[test]
fn sink_writes_and_patches() {
    let mut p = Parsed::with_capacity(8);
    p.write(9);
    p.write_slice(&[0, 0, 0, 0, 7]);
    p.rewrite_slice(1, &[1, 2]);
    assert_eq!(p.get_parsed_len(), 6);
    assert_eq!(p.get_parsed_clone(), vec![9, 1, 2, 0, 0, 7]);
    assert_eq!(p.get_parsed(), vec![9, 1, 2, 0, 0, 7]);
    assert_eq!(Parsed::new().get_parsed(), Vec::<u8>::new());
}

#[test]
fn little_endian_helpers() {
    assert_eq!(le32_bytes(0x0102_0304), [4, 3, 2, 1]);
    assert_eq!(le32_from(4, 3, 2, 1), 0x0102_0304);
    assert_eq!(le64_bytes(1.5f64.to_bits()), 1.5f64.to_le_bytes());
}

#[test]
fn extender_copies_text() {
    let e = Extender::new(b"{\"a\":1}".to_vec());
    assert_eq!(e.extend(), b"{\"a\":1}".to_vec());
}
