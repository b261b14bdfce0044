use byteparse::{Parser, Combine};
use byteparse::byte::{satisfy, IsByte, IsDigit, DigitValue};

#[test]
fn test_then() {
    let x = satisfy(IsByte { byte: b'x' });
    let y = satisfy(IsByte { byte: b'y' });
    let mut xy = x.and_then(y);
    assert_eq!(xy.parse(b""), Err(()));
    assert_eq!(xy.parse(b"x"), Err(()));
    assert_eq!(xy.parse(b"y"), Err(()));
    assert_eq!(xy.parse(b"xy"), Ok(((b'x', b'y'), 2)));
    assert_eq!(xy.parse(b"xyz"), Ok(((b'x', b'y'), 2)));
}

#[test]
fn test_or() {
    let x = satisfy(IsByte { byte: b'x' });
    let y = satisfy(IsByte { byte: b'y' });
    let mut xy = x.or(y);
    assert_eq!(xy.parse(b""), Err(()));
    assert_eq!(xy.parse(b"x"), Ok((b'x', 1)));
    assert_eq!(xy.parse(b"y"), Ok((b'y', 1)));
    assert_eq!(xy.parse(b"xy"), Ok((b'x', 1)));
    assert_eq!(xy.parse(b"yx"), Ok((b'y', 1)));
    assert_eq!(xy.parse(b"z"), Err(()));
}

#[test]
fn test_map() {
    let mut digit = satisfy(IsDigit).map(DigitValue);

    assert_eq!(digit.parse(b""), Err(()));
    assert_eq!(digit.parse(b"0"), Ok((0, 1)));
    assert_eq!(digit.parse(b"9"), Ok((9, 1)));
    assert_eq!(digit.parse(b"z"), Err(()));
}

#[test]
fn test_many() {
    let mut digits = satisfy(IsDigit).many();

    assert_eq!(digits.parse(b""), Ok((vec![], 0)));
    assert_eq!(digits.parse(b"0"), Ok((vec![b'0'], 1)));
    assert_eq!(digits.parse(b"0z"), Ok((vec![b'0'], 1)));
    assert_eq!(digits.parse(b"01"), Ok((vec![b'0', b'1'], 2)));
    assert_eq!(digits.parse(b"01z"), Ok((vec![b'0', b'1'], 2)));
    assert_eq!(digits.parse(b"z"), Ok((vec![], 0)));
}

#[test]
fn test_or_of_sequences() {
    let xy = satisfy(IsByte { byte: b'x' }).and_then(satisfy(IsByte { byte: b'y' }));
    let xz = satisfy(IsByte { byte: b'x' }).and_then(satisfy(IsByte { byte: b'z' }));
    let mut p = xy.or(xz);
    assert_eq!(p.parse(b"xy"), Ok(((b'x', b'y'), 2)));
    assert_eq!(p.parse(b"xz"), Ok(((b'x', b'z'), 2)));
    assert_eq!(p.parse(b"x"), Err(()));
    assert_eq!(p.parse(b"zx"), Err(()));
}

#[test]
fn test_many_of_mapped() {
    let mut values = satisfy(IsDigit).map(DigitValue).many();
    assert_eq!(values.parse(b"0129x"), Ok((vec![0, 1, 2, 9], 4)));
    assert_eq!(values.parse(b"x012"), Ok((vec![], 0)));
}

#[test]
fn test_many_consumed_monotonic() {
    // a prefix-stable inner parser: the consumed count never shrinks when
    // the input is extended beyond a recognized prefix
    let mut digits = satisfy(IsDigit).many();
    let consumed_short = digits.parse(b"01").unwrap().1;
    let consumed_same = digits.parse(b"01z").unwrap().1;
    let consumed_longer = digits.parse(b"0123").unwrap().1;
    assert_eq!(consumed_short, 2);
    assert_eq!(consumed_same, 2);
    assert_eq!(consumed_longer, 4);
    assert!(consumed_short <= consumed_same);
    assert!(consumed_short <= consumed_longer);
}

#[test]
fn test_then_no_backtracking() {
    // if the second child fails, the sequence fails as a whole even though
    // the first child consumed bytes
    let mut p = satisfy(IsByte { byte: b'x' }).and_then(satisfy(IsByte { byte: b'y' }));
    assert_eq!(p.parse(b"xz"), Err(()));
}
