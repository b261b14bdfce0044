use byteparse::Parser;
use byteparse::byte::{satisfy, IsByte, U8};

#[test]
fn test_satisfy() {
    let mut x = satisfy(IsByte { byte: b'x' });
    assert_eq!(x.parse(b""), Err(()));
    assert_eq!(x.parse(b"x"), Ok((b'x', 1)));
    assert_eq!(x.parse(b"y"), Err(()));
    assert_eq!(x.parse(b"xy"), Ok((b'x', 1)));
}

#[test]
fn test_u8() {
    let mut x = U8 { byte: b'x' };
    assert_eq!(x.parse(b""), Err(()));
    assert_eq!(x.parse(b"x"), Ok((b'x', 1)));
    assert_eq!(x.parse(b"y"), Err(()));
    assert_eq!(x.parse(b"xy"), Ok((b'x', 1)));
}

#[test]
fn test_satisfy_consumes_one_byte() {
    // a successful predicate match always reports exactly one consumed byte
    let mut x = satisfy(IsByte { byte: b'q' });
    assert_eq!(x.parse(b"qqqq"), Ok((b'q', 1)));
}
