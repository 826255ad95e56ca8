use lc3asm::BitVecWriter;

#[test]
fn test_bitvecwriter() {
    let buf = Vec::new();
    let mut bvw = BitVecWriter::new(buf);
    bvw.write(8, 3).unwrap();
    assert_eq!(bvw.count_written(), (1, 0));
    bvw.write(3, 5).unwrap();
    assert_eq!(bvw.count_written(), (1, 3));
    bvw.write_bit(true).unwrap();
    bvw.write(4, 5).unwrap();
    assert_eq!(bvw.count_written(), (2, 0));
    assert_eq!(bvw.into_inner(), vec![3, 0b1011_0101]);
}

#[test]
fn test_bvw_overflow() {
    let buf = Vec::new();
    let mut bvw = BitVecWriter::new(buf);
    bvw.write(4, 16).unwrap_err();
}

#[test]
fn writer_signed_fields_use_twos_complement() {
    let mut bvw = BitVecWriter::new(Vec::new());
    bvw.write_signed(4, -5).unwrap();
    bvw.write_signed(4, 7).unwrap();
    assert_eq!(bvw.count_written(), (1, 0));
    assert_eq!(bvw.into_inner(), vec![0b1011_0111]);
}

#[test]
fn writer_rejects_signed_values_out_of_range() {
    let mut bvw = BitVecWriter::new(Vec::new());
    assert!(bvw.write_signed(5, 16).is_err());
    assert_eq!(bvw.count_written(), (0, 0));
    bvw.write(8, 0xA5).unwrap();
    assert_eq!(bvw.into_inner(), vec![0xA5]);
    let mut bvw = BitVecWriter::new(Vec::new());
    assert!(bvw.write_signed(5, -17).is_err());
    assert_eq!(bvw.count_written(), (0, 0));
    let mut bvw = BitVecWriter::new(Vec::new());
    assert!(bvw.write_signed(5, -16).is_ok());
    assert!(bvw.write_signed(3, 3).is_ok());
    assert_eq!(bvw.into_inner(), vec![0b1000_0011]);
}

#[test]
fn writer_keeps_initial_bytes_and_drops_partial_byte() {
    let mut bvw = BitVecWriter::new(vec![0xAB]);
    bvw.write(16, 0x1234).unwrap();
    bvw.write(3, 1).unwrap();
    assert_eq!(bvw.count_written(), (2, 3));
    assert_eq!(bvw.into_inner(), vec![0xAB, 0x12, 0x34]);
}

#[test]
fn writer_accepts_wide_fields() {
    let mut bvw = BitVecWriter::new(Vec::new());
    bvw.write(24, 0x123456).unwrap();
    bvw.write(32, 0xDEADBEEF).unwrap();
    bvw.write_signed(32, -2).unwrap();
    bvw.write_signed(1, -1).unwrap();
    bvw.write_signed(7, 0).unwrap();
    assert!(bvw.write(33, 0).is_err());
    assert!(bvw.write_signed(40, 0).is_err());
    assert_eq!(bvw.count_written(), (12, 0));
    assert_eq!(
        bvw.into_inner(),
        vec![0x12, 0x34, 0x56, 0xDE, 0xAD, 0xBE, 0xEF, 0xFF, 0xFF, 0xFF, 0xFE, 0x80]
    );
}
