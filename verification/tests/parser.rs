use typed_path::parser::{
    byte, bytes, divided, maybe, one_or_more, prefixed, suffixed, take, take_until_byte,
    zero_or_more, ParseInput, ParseResult,
};

fn parse_fail(_: ParseInput) -> ParseResult<ParseInput> {
    Err("bad parser")
}

fn take_all(input: ParseInput) -> ParseResult<ParseInput> {
    Ok((b"", input))
}

#[test]
fn should_fail_if_prefix_parser_fails() {
    let _ = prefixed(|i| parse_fail(i), |i| take_all(i), b"abc").unwrap_err();
}

#[test]
fn should_fail_if_main_parser_fails() {
    let _ = prefixed(|i| take(1, i), |i| parse_fail(i), b"abc").unwrap_err();
}

#[test]
fn should_return_value_of_main_parser_when_succeeds() {
    let (s, value) = prefixed(|i| take(1, i), |i| take(1, i), b"abc").unwrap();
    assert_eq!(s, b"c");
    assert_eq!(value, b"b");
}

#[test]
fn should_return_some_value_if_wrapped_parser_succeeds() {
    let (s, value) = maybe(|i| take(2, i), b"abc").unwrap();
    assert_eq!(s, b"c");
    assert_eq!(value, Some(b"ab".as_slice()));
}

#[test]
fn should_return_none_if_wrapped_parser_fails() {
    let (s, value) = maybe(|i| parse_fail(i), b"abc").unwrap();
    assert_eq!(s, b"abc");
    assert_eq!(value, None);
}

#[test]
fn should_consume_until_predicate_matches() {
    let (s, text) = take_until_byte(|c| c == b'b', b"abc").unwrap();
    assert_eq!(s, b"bc");
    assert_eq!(text, b"a");
}

#[test]
fn should_consume_completely_if_predicate_never_matches() {
    let (s, text) = take_until_byte(|c| c == b'z', b"abc").unwrap();
    assert_eq!(s, b"");
    assert_eq!(text, b"abc");
}

#[test]
fn should_fail_if_nothing_consumed() {
    let _ = take_until_byte(|c| c == b'a', b"abc").unwrap_err();
}

#[test]
fn parser_should_fail_if_input_is_empty() {
    let _ = take_until_byte(|c| c == b'a', b"").unwrap_err();
    let _ = byte(b'a', b"").unwrap_err();
}

#[test]
fn should_succeed_if_next_byte_matches() {
    let (s, c) = byte(b'a', b"abc").unwrap();
    assert_eq!(s, b"bc");
    assert_eq!(c, b'a');
}

#[test]
fn should_fail_if_next_byte_does_not_match() {
    let _ = byte(b'b', b"abc").unwrap_err();
}

#[test]
fn map_should_transform_the_value_and_keep_the_rest() {
    let (s, n) = typed_path::parser::map(|i| take(2, i), |v: &[u8]| v.len(), b"abc").unwrap();
    assert_eq!(s, b"c");
    assert_eq!(n, 2);
    let _ = typed_path::parser::map(|i| parse_fail(i), |v: &[u8]| v.len(), b"abc").unwrap_err();
}

#[test]
fn divided_should_drop_the_middle_value() {
    let (s, (l, r)) = divided(|i| take(1, i), |i| byte(b'-', i), |i| take(1, i), b"a-bc").unwrap();
    assert_eq!(s, b"c");
    assert_eq!(l, b"a");
    assert_eq!(r, b"b");
    let _ = divided(|i| take(1, i), |i| byte(b'-', i), |i| take(1, i), b"a+bc").unwrap_err();
}

#[test]
fn suffixed_should_keep_the_first_value() {
    let (s, v) = suffixed(|i| take(1, i), |i| byte(b'/', i), b"a/b").unwrap();
    assert_eq!(s, b"b");
    assert_eq!(v, b"a");
    let _ = suffixed(|i| take(1, i), |i| byte(b'/', i), b"ab").unwrap_err();
}

#[test]
fn one_or_more_should_stop_at_the_first_failure() {
    let (s, v) = one_or_more(|i| byte(b'a', i), b"aab").unwrap();
    assert_eq!(s, b"b");
    assert_eq!(v, vec![b'a', b'a']);
    let _ = one_or_more(|i| byte(b'a', i), b"baa").unwrap_err();
}

#[test]
fn zero_or_more_agrees_with_one_or_more_unless_the_parser_fails_at_once() {
    for input in [&b"aab"[..], &b"a"[..], &b"aaaa"[..]] {
        let zero = zero_or_more(|i| byte(b'a', i), input).unwrap();
        let one = one_or_more(|i| byte(b'a', i), input).unwrap();
        assert_eq!(zero, one);
    }
    for input in [&b"baa"[..], &b""[..]] {
        assert!(one_or_more(|i| byte(b'a', i), input).is_err());
        let (s, v) = zero_or_more(|i| byte(b'a', i), input).unwrap();
        assert_eq!(s, input);
        assert!(v.is_empty());
    }
}

#[test]
fn zero_or_more_should_succeed_without_a_match() {
    let (s, v) = zero_or_more(|i| byte(b'a', i), b"baa").unwrap();
    assert_eq!(s, b"baa");
    assert!(v.is_empty());
    let (s, v) = zero_or_more(|i| byte(b'a', i), b"aaa").unwrap();
    assert_eq!(s, b"");
    assert_eq!(v.len(), 3);
}

#[test]
fn take_should_fail_when_asking_for_more_than_there_is() {
    let (s, v) = take(3, b"abc").unwrap();
    assert_eq!(s, b"");
    assert_eq!(v, b"abc");
    let (s, v) = take(0, b"abc").unwrap();
    assert_eq!(s, b"abc");
    assert_eq!(v, b"");
    let _ = take(4, b"abc").unwrap_err();
}

#[test]
fn bytes_should_match_an_exact_prefix() {
    let (s, v) = bytes(b"ab", b"abc").unwrap();
    assert_eq!(s, b"c");
    assert_eq!(v, b"ab");
    let _ = bytes(b"ac", b"abc").unwrap_err();
    let _ = bytes(b"abcd", b"abc").unwrap_err();
}
