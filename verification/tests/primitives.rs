use nom::bytes::{
    filter, is_a, is_not, tag, take, take_str, take_until, take_until_either,
    take_until_either_and_consume,
};
use nom::{ErrorKind, GetInput, GetOutput, IResult, Needed, ParseError};

#[test]
fn tag_matches_prefix() {
    let input = &b"abcdefgh"[..];
    assert_eq!(tag(&b"abcd"[..], input), IResult::Done(&b"efgh"[..], &b"abcd"[..]));
}

#[test]
fn tag_mismatch_is_positioned_error() {
    let input = &b"abxdefgh"[..];
    assert_eq!(
        tag(&b"abcd"[..], input),
        IResult::Error(ParseError::Position(ErrorKind::Tag, input))
    );
}

#[test]
fn tag_short_input_asks_for_literal_length() {
    assert_eq!(tag(&b"end"[..], &b"ab"[..]), IResult::Incomplete(Needed::Size(3)));
    assert_eq!(tag(&b"abcd"[..], &b""[..]), IResult::Incomplete(Needed::Size(4)));
}

#[test]
fn is_not_stops_at_excluded_byte() {
    assert_eq!(
        is_not(&b" \t\r\n"[..], &b"abcdefgh\nijkl"[..]),
        IResult::Done(&b"\nijkl"[..], &b"abcdefgh"[..])
    );
}

#[test]
fn is_not_first_byte_excluded_is_error() {
    let input = &b"abc"[..];
    assert_eq!(
        is_not(&b"ab"[..], input),
        IResult::Error(ParseError::Position(ErrorKind::IsNot, input))
    );
}

#[test]
fn is_not_consumes_whole_buffer_without_stop() {
    assert_eq!(is_not(&b"xy"[..], &b"abc"[..]), IResult::Done(&b""[..], &b"abc"[..]));
}

#[test]
fn is_a_consumes_whole_buffer_without_stop() {
    assert_eq!(is_a(&b"ab"[..], &b"abab"[..]), IResult::Done(&b""[..], &b"abab"[..]));
}

#[test]
fn is_a_set_membership_is_order_independent() {
    assert_eq!(is_a(&b"abcd"[..], &b"dcbaefgh"[..]), IResult::Done(&b"efgh"[..], &b"dcba"[..]));
}

#[test]
fn filter_splits_at_failing_byte() {
    assert_eq!(
        filter(|b: u8| b.is_ascii_alphanumeric(), &b"abcd\nefgh"[..]),
        IResult::Done(&b"\nefgh"[..], &b"abcd"[..])
    );
}

#[test]
fn filter_whole_buffer_match_has_empty_remainder() {
    assert_eq!(
        filter(|b: u8| b.is_ascii_alphanumeric(), &b"abcd"[..]),
        IResult::Done(&b""[..], &b"abcd"[..])
    );
}

#[test]
fn filter_failing_first_byte_is_error() {
    let input = &b"\nabcd"[..];
    assert_eq!(
        filter(|b: u8| b.is_ascii_alphanumeric(), input),
        IResult::Error(ParseError::Position(ErrorKind::Filter, input))
    );
    let empty = &b""[..];
    assert_eq!(
        filter(|b: u8| b.is_ascii_alphanumeric(), empty),
        IResult::Error(ParseError::Position(ErrorKind::Filter, empty))
    );
}

#[test]
fn take_splits_after_count() {
    let a = b"abcdefgh";
    assert_eq!(take(5, &a[..]), IResult::Done(&b"fgh"[..], &b"abcde"[..]));
}

#[test]
fn take_exact_length_consumes_everything() {
    assert_eq!(take(4, &b"abcd"[..]), IResult::Done(&b""[..], &b"abcd"[..]));
    assert_eq!(take(0, &b"ab"[..]), IResult::Done(&b"ab"[..], &b""[..]));
}

#[test]
fn take_rerun_on_short_remainder_is_incomplete() {
    let r = take(3, &b"abcde"[..]);
    assert_eq!(r, IResult::Done(&b"de"[..], &b"abc"[..]));
    match r {
        IResult::Done(rest, _) => {
            assert_eq!(take(3, rest), IResult::Incomplete(Needed::Size(3)));
        }
        _ => panic!("expected success"),
    }
}

#[test]
fn take_str_invalid_utf8_is_error_not_incomplete() {
    let bytes = [0xffu8, 0xfe, 0x61];
    let input = &bytes[..];
    assert_eq!(
        take_str(2, input),
        IResult::Error(ParseError::Position(ErrorKind::MapRes, input))
    );
}

#[test]
fn take_until_leaves_delimiter_in_remainder() {
    assert_eq!(
        take_until(&b"efgh"[..], &b"abcdabcdefghijkl"[..]),
        IResult::Done(&b"efghijkl"[..], &b"abcdabcd"[..])
    );
}

#[test]
fn take_until_either_splits_at_first_member() {
    assert_eq!(
        take_until_either(&b"!."[..], &b"abc.def"[..]),
        IResult::Done(&b".def"[..], &b"abc"[..])
    );
    assert_eq!(
        take_until_either_and_consume(&b"!."[..], &b"abc.def"[..]),
        IResult::Done(&b"def"[..], &b"abc"[..])
    );
}

#[test]
fn take_until_either_first_byte_member_is_empty_match() {
    assert_eq!(
        take_until_either_and_consume(&b"."[..], &b".abc"[..]),
        IResult::Done(&b"abc"[..], &b""[..])
    );
}

#[test]
fn take_until_either_empty_input_asks_for_one_byte() {
    assert_eq!(take_until_either(&b"!."[..], &b""[..]), IResult::Incomplete(Needed::Size(1)));
    assert_eq!(
        take_until_either_and_consume(&b"!."[..], &b""[..]),
        IResult::Incomplete(Needed::Size(1))
    );
}

#[test]
fn take_until_either_and_consume_no_member_is_error() {
    let input = &b"123"[..];
    assert_eq!(
        take_until_either_and_consume(&b"!."[..], input),
        IResult::Error(ParseError::Position(ErrorKind::TakeUntilEitherAndConsume, input))
    );
}

#[test]
fn result_predicates_classify_the_three_outcomes() {
    let done: IResult<&[u8], &[u8]> = tag(&b"ab"[..], &b"abcd"[..]);
    assert!(done.is_done() && !done.is_err() && !done.is_incomplete());

    let err: IResult<&[u8], &[u8]> = tag(&b"ab"[..], &b"xy"[..]);
    assert!(err.is_err() && !err.is_done() && !err.is_incomplete());

    let inc: IResult<&[u8], &[u8]> = tag(&b"abc"[..], &b"ab"[..]);
    assert!(inc.is_incomplete() && !inc.is_done() && !inc.is_err());
}

#[test]
fn accessors_expose_done_parts_only() {
    let done: IResult<&[u8], &[u8]> = take(2, &b"abcd"[..]);
    assert_eq!(done.remaining_input(), Some(&b"cd"[..]));
    assert_eq!(done.output(), Some(&b"ab"[..]));

    let err: IResult<&[u8], &[u8]> = is_a(&b"x"[..], &b"abc"[..]);
    assert_eq!(err.remaining_input(), None);
    assert_eq!(err.output(), None);

    let inc: IResult<&[u8], &[u8]> = take(9, &b"abc"[..]);
    assert_eq!(inc.remaining_input(), None);
    assert_eq!(inc.output(), None);
}

#[test]
fn error_chains_keep_code_and_position() {
    let input = &b"xyz"[..];
    let leaf = ParseError::Position(ErrorKind::Tag, input);
    let chained: ParseError<u32> = ParseError::NodePosition(
        ErrorKind::Custom(42),
        input,
        Box::new(leaf),
    );
    match &chained {
        ParseError::NodePosition(kind, pos, cause) => {
            assert_eq!(*kind, ErrorKind::Custom(42));
            assert_eq!(*pos, input);
            assert_eq!(**cause, ParseError::Position(ErrorKind::Tag, input));
        }
        _ => panic!("expected a positioned node"),
    }
    assert_ne!(chained, ParseError::Code(ErrorKind::Custom(42)));
}

#[test]
fn needed_distinguishes_known_and_unknown_amounts() {
    assert_ne!(Needed::Unknown, Needed::Size(0));
    assert_eq!(Needed::Size(3), Needed::Size(3));
    assert_ne!(Needed::Size(3), Needed::Size(4));
}
