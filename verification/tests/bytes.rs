use nom::bytes::{take_str, take_until, take_until_and_consume, take_until_either};
use nom::{ErrorKind, IResult, Needed, ParseError};

#[test]
fn is_a() {
    let a = &b"abcd"[..];
    assert_eq!(nom::bytes::is_a(&b"ab"[..], a), IResult::Done(&b"cd"[..], &b"ab"[..]));

    let b = &b"bcde"[..];
    assert_eq!(nom::bytes::is_a(&b"ab"[..], b), IResult::Done(&b"cde"[..], &b"b"[..]));

    let c = &b"cdef"[..];
    assert_eq!(
        nom::bytes::is_a(&b"ab"[..], c),
        IResult::Error(ParseError::Position(ErrorKind::IsA, c))
    );

    let d = &b"bacdef"[..];
    assert_eq!(nom::bytes::is_a(&b"ab"[..], d), IResult::Done(&b"cdef"[..], &b"ba"[..]));
}

#[test]
fn take_str_test() {
    let a = b"omnomnom";

    assert_eq!(take_str(5, &a[..]), IResult::Done(&b"nom"[..], "omnom"));
    assert_eq!(take_str(9, &a[..]), IResult::Incomplete(Needed::Size(9)));
}

#[test]
fn take_until_test() {
    let r = take_until_and_consume(&b"efgh"[..], &b"abcdabcdefghijkl"[..]);
    assert_eq!(r, IResult::Done(&b"ijkl"[..], &b"abcdabcd"[..]));

    println!("Done 1\n");

    let r2 = take_until_and_consume(&b"efgh"[..], &b"abcdabcdefgh"[..]);
    assert_eq!(r2, IResult::Done(&b""[..], &b"abcdabcd"[..]));

    println!("Done 2\n");
    let r3 = take_until_and_consume(&b"efgh"[..], &b"abcefg"[..]);
    assert_eq!(
        r3,
        IResult::Error(ParseError::Position(ErrorKind::TakeUntilAndConsume, &b"abcefg"[..]))
    );

    assert_eq!(take_until_and_consume(&b"efgh"[..], &b"ab"[..]), IResult::Incomplete(Needed::Size(4)));
}

#[test]
fn take_until_either_incomplete() {
    assert_eq!(
        take_until_either(&b"!."[..], &b"123"[..]),
        IResult::Error(ParseError::Position(ErrorKind::TakeUntilEither, &b"123"[..]))
    );
}

#[test]
fn take_until_incomplete() {
    assert_eq!(take_until(&b"end"[..], &b"nd"[..]), IResult::Incomplete(Needed::Size(3)));
    assert_eq!(
        take_until(&b"end"[..], &b"123"[..]),
        IResult::Error(ParseError::Position(ErrorKind::TakeUntil, &b"123"[..]))
    );
}
