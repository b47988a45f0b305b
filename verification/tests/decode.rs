use rustorrent::bencode;
use rustorrent::decode::{self, Error};

#[test]
fn char_takes_the_expected_byte() {
    assert_eq!(decode::char(b"abc", b'a'), Ok(&b"bc"[..]));
    assert_eq!(decode::char(b"", b'a'), Err(Error::EmptyInput));
    let e = decode::char(b"bc", b'a').unwrap_err();
    assert_eq!(format!("{:?}", e), "Char(Mismatch { expect: 97, got: 98 })");
}

#[test]
fn till_splits_at_the_first_delimiter() {
    assert_eq!(decode::till(b"12:ab:c", b':'), Ok((&b"ab:c"[..], &b"12"[..])));
    assert_eq!(decode::till(b":x", b':'), Ok((&b"x"[..], &b""[..])));
    assert_eq!(decode::till(b"abc", b':'), Err(Error::NoDelimeter(b':')));
}

#[test]
fn u32_reads_big_endian() {
    assert_eq!(decode::u32(&[1, 2, 3, 4, 5]), Some((&[5u8][..], 0x01020304)));
    assert_eq!(decode::u32(&[255, 255, 255, 255]), Some((&[][..], u32::MAX)));
    assert_eq!(decode::u32(&[1, 2, 3]), None);
    let mut out = vec![7];
    decode::push_be_u32(&mut out, 0x0a0b0c0d);
    assert_eq!(out, vec![7, 10, 11, 12, 13]);
}

#[test]
fn wrap_converts_value_and_error() {
    let ok: Result<(&[u8], u8), bool> = Ok((&b"r"[..], 3));
    let w = decode::wrap(|x: u8| x as i64 * 2, |e: bool| !e);
    assert_eq!(w(ok), Ok((&b"r"[..], 6i64)));
    let w = decode::wrap(|x: u8| x as i64 * 2, |e: bool| !e);
    let err: Result<(&[u8], u8), bool> = Err(true);
    assert_eq!(w(err), Err(false));
}

#[test]
fn many_decodes_until_failure() {
    let items = decode::many(|input: &[u8]| bencode::item(input));
    let (rest, out, error) = items(b"i1e3:abcli2eeX");
    assert_eq!(rest, b"X");
    assert_eq!(out.len(), 3);
    assert_eq!(out[0], bencode::Item::Integer(1));
    assert_eq!(error, bencode::Error::NotAnItem);
    let (rest, out, error) = items(b"");
    assert_eq!(rest, b"");
    assert!(out.is_empty());
    assert_eq!(error, bencode::Error::NotAnItem);
}
