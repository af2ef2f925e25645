use rpfm::bytes::{
    Cursor, CursorError, write_bool, write_string16, write_string8, write_u16, write_u32,
};

#[test]
fn reads_little_endian_in_sequence() {
    let bytes = [0x34, 0x12, 0x78, 0x56, 0x34, 0x12, 0x01, 0x00];
    let mut c = Cursor::new(&bytes);
    assert_eq!(c.read_u16(), Ok(0x1234));
    assert_eq!(c.read_u32(), Ok(0x1234_5678));
    assert_eq!(c.read_bool(), Ok(true));
    assert_eq!(c.read_bool(), Ok(false));
    assert_eq!(c.remaining(), 0);
    assert_eq!(c.read_u8(), Err(CursorError::UnexpectedEof));
}

#[test]
fn eof_and_invalid_bool() {
    let bytes = [0x02, 0x01];
    let mut c = Cursor::new(&bytes);
    assert_eq!(c.read_u32(), Err(CursorError::UnexpectedEof));
    assert_eq!(c.read_bool(), Err(CursorError::InvalidBool));
    assert_eq!(c.pos, 0);
    assert_eq!(c.read_u8(), Ok(2));
    assert_eq!(c.read_bool(), Ok(true));
    assert_eq!(c.read_bool(), Err(CursorError::UnexpectedEof));
}

#[test]
fn strings_round_trip() {
    let mut out = Vec::new();
    let text: Vec<u16> = "Añ€".encode_utf16().collect();
    write_string16(&mut out, &text);
    write_string8(&mut out, b"ok");
    write_u16(&mut out, 7);
    write_u32(&mut out, 0xdead_beef);
    write_bool(&mut out, false);
    assert_eq!(
        out,
        vec![3, 0, 0x41, 0, 0xf1, 0, 0xac, 0x20, 2, 0, b'o', b'k', 7, 0, 0xef, 0xbe, 0xad, 0xde, 0]
    );
    let mut c = Cursor::new(&out);
    assert_eq!(c.read_string16(), Ok(text));
    assert_eq!(c.read_string8(), Ok(b"ok".to_vec()));
    assert_eq!(c.read_u16(), Ok(7));
    assert_eq!(c.read_u32(), Ok(0xdead_beef));
    assert_eq!(c.read_bool(), Ok(false));
}

#[test]
fn string_longer_than_buffer() {
    let bytes = [5, 0, 0x41, 0];
    let mut c = Cursor::new(&bytes);
    assert_eq!(c.read_string16(), Err(CursorError::UnexpectedEof));
    let mut c = Cursor::new(&bytes);
    assert_eq!(c.read_string8(), Err(CursorError::UnexpectedEof));
    let mut c = Cursor::new(&bytes);
    assert_eq!(c.read_bytes(4), Ok(bytes.to_vec()));
}
