use safari_binarycookies::cursor::Cursor;
use safari_binarycookies::Error;

#[test]
fn take_advances_and_bounds_checks() {
    let data = [1, 2, 3];
    let mut cursor = Cursor::new(&data);
    assert!(matches!(cursor.take(2), Ok([1, 2])));
    assert_eq!(cursor.remaining(), 1);
    assert!(matches!(cursor.take(2), Err(Error::UnexpectedEof)));
    assert!(matches!(cursor.take(1), Ok([3])));
    assert!(matches!(cursor.take(1), Err(Error::UnexpectedEof)));
    assert!(matches!(cursor.take(0), Ok([])));
}

#[test]
fn take_survives_usize_overflow() {
    let data = [0; 4];
    let mut cursor = Cursor::new(&data);
    assert!(matches!(cursor.skip(2), Ok(())));
    assert!(matches!(cursor.take(usize::MAX), Err(Error::UnexpectedEof)));
}

#[test]
fn integer_reads_respect_endianness() {
    let data = [0x00, 0x00, 0x00, 0x0b, 0x0b, 0x00, 0x00, 0x00];
    let mut cursor = Cursor::new(&data);
    assert!(matches!(cursor.u32_be(), Ok(11)));
    assert!(matches!(cursor.u32_le(), Ok(11)));
    assert!(matches!(cursor.u32_le(), Err(Error::UnexpectedEof)));

    let float_bytes = 1.5f64.to_le_bytes();
    let mut cursor = Cursor::new(&float_bytes);
    assert!(matches!(cursor.u64_le(), Ok(v) if v == 1.5f64.to_bits()));
}

#[test]
fn failed_take_leaves_position_unchanged() {
    let data = [9, 8, 7, 6, 5];
    let mut cursor = Cursor::new(&data);
    assert!(matches!(cursor.take(1), Ok([9])));
    assert!(matches!(cursor.take(5), Err(Error::UnexpectedEof)));
    assert_eq!(cursor.remaining(), 4);
    assert!(matches!(cursor.array(), Ok([8, 7, 6, 5])));
    assert_eq!(cursor.remaining(), 0);
}

#[test]
fn expect_tag_reports_mismatch_and_eof() {
    let data = [0, 0, 1, 0, 0, 0, 0, 1, 0];
    let mut cursor = Cursor::new(&data);
    assert!(matches!(cursor.expect_tag([0, 0, 1, 0], Error::InvalidPageTag), Ok(())));
    assert!(matches!(
        cursor.expect_tag([0, 0, 0, 0], Error::InvalidPageEnd),
        Err(Error::InvalidPageEnd)
    ));
    assert!(matches!(
        cursor.expect_tag([0, 0, 0, 0], Error::InvalidPageEnd),
        Err(Error::UnexpectedEof)
    ));
}

#[test]
fn u64_le_reads_eight_bytes_little_endian() {
    let data = [0x01, 0x02, 0x03, 0x04, 0x05, 0x06, 0x07, 0x08];
    let mut cursor = Cursor::new(&data);
    assert!(matches!(cursor.u64_le(), Ok(0x0807_0605_0403_0201)));
    let mut short = Cursor::new(&data[..7]);
    assert!(matches!(short.u64_le(), Err(Error::UnexpectedEof)));
}
