//! Small byte-level parser combinators.
//!
//! A parser is anything that takes the remaining input and either fails with a static message or
//! succeeds with the input that is left after it and the value it parsed.
use vstd::prelude::*;
use vstd::slice::slice_subrange;

verus! {

/// Input handed to a parser
pub type ParseInput<'a> = &'a [u8];

/// Error reported by a parser that did not match its input
pub type ParseError = &'static str;

/// Result of a parser: the input left after it and the value it parsed
pub type ParseResult<'a, T> = Result<(ParseInput<'a>, T), ParseError>;

/// `inputs[0]` is the input handed to `parser`; each success in `values` took `inputs[i]` to
/// `inputs[i + 1]`.
pub open spec fn repeated_by<'a, T, P: Fn(&'a [u8]) -> ParseResult<'a, T>>(
    parser: P,
    inputs: Seq<&'a [u8]>,
    values: Seq<T>,
) -> bool {
    &&& inputs.len() == values.len() + 1
    &&& forall|i: int|
        0 <= i < values.len() ==> #[trigger] parser.ensures(
            (inputs[i],),
            Ok((inputs[i + 1], values[i])),
        )
}

/// Every success of `parser` leaves strictly less input than it was handed
pub open spec fn consumes_on_success<'a, T, P: Fn(&'a [u8]) -> ParseResult<'a, T>>(
    parser: P,
) -> bool {
    forall|i: &'a [u8], rest: &'a [u8], v: T|
        #[trigger] parser.ensures((i,), Ok((rest, v))) ==> rest@.len() < i@.len()
}

/// Map a parser's result
pub fn map<'a, T, U, P, F>(parser: P, f: F, input: &'a [u8]) -> (res: ParseResult<'a, U>) where
    P: Fn(&'a [u8]) -> ParseResult<'a, T>,
    F: Fn(T) -> U,

    requires
        parser.requires((input,)),
        forall|v: T| #[trigger] f.requires((v,)),
    ensures
        exists|r: ParseResult<'a, T>|
            #[trigger] parser.ensures((input,), r) && match r {
                Ok((rest, v)) => match res {
                    Ok((rest2, u)) => rest2 == rest && f.ensures((v,), u),
                    Err(_) => false,
                },
                Err(e) => res == Err::<(ParseInput<'a>, U), ParseError>(e),
            },
{
    match parser(input) {
        Ok((rest, v)) => Ok((rest, f(v))),
        Err(e) => Err(e),
    }
}

/// Execute three parsers in a row, failing if any fails, and returns first and third parsers'
/// results
pub fn divided<'a, T1, T2, T3, L, M, R>(left: L, middle: M, right: R, input: &'a [u8]) -> (res:
    ParseResult<'a, (T1, T3)>) where
    L: Fn(&'a [u8]) -> ParseResult<'a, T1>,
    M: Fn(&'a [u8]) -> ParseResult<'a, T2>,
    R: Fn(&'a [u8]) -> ParseResult<'a, T3>,

    requires
        forall|i: &'a [u8]| #[trigger] left.requires((i,)),
        forall|i: &'a [u8]| #[trigger] middle.requires((i,)),
        forall|i: &'a [u8]| #[trigger] right.requires((i,)),
    ensures
        exists|r1: ParseResult<'a, T1>|
            #[trigger] left.ensures((input,), r1) && match r1 {
                Err(e) => res == Err::<(ParseInput<'a>, (T1, T3)), ParseError>(e),
                Ok((i1, v1)) => exists|r2: ParseResult<'a, T2>|
                    #[trigger] middle.ensures((i1,), r2) && match r2 {
                        Err(e) => res == Err::<(ParseInput<'a>, (T1, T3)), ParseError>(e),
                        Ok((i2, _)) => exists|r3: ParseResult<'a, T3>|
                            #[trigger] right.ensures((i2,), r3) && match r3 {
                                Err(e) => res == Err::<(ParseInput<'a>, (T1, T3)), ParseError>(e),
                                Ok((rest, v3)) => res == Ok::<(ParseInput<'a>, (T1, T3)), ParseError>((rest, (v1, v3))),
                            },
                    },
            },
{
    let (input1, v1) = match left(input) {
        Ok(x) => x,
        Err(e) => { return Err(e); },
    };
    let (input2, _v2) = match middle(input1) {
        Ok(x) => x,
        Err(e) => { return Err(e); },
    };
    match right(input2) {
        Ok((rest, v3)) => Ok((rest, (v1, v3))),
        Err(e) => Err(e),
    }
}

/// Execute two parsers in a row, failing if either fails, and returns second parser's result
pub fn prefixed<'a, T1, T2, P, Q>(prefix: P, parser: Q, input: &'a [u8]) -> (res: ParseResult<
    'a,
    T2,
>) where
    P: Fn(&'a [u8]) -> ParseResult<'a, T1>,
    Q: Fn(&'a [u8]) -> ParseResult<'a, T2>,

    requires
        forall|i: &'a [u8]| #[trigger] prefix.requires((i,)),
        forall|i: &'a [u8]| #[trigger] parser.requires((i,)),
    ensures
        exists|r1: ParseResult<'a, T1>|
            #[trigger] prefix.ensures((input,), r1) && match r1 {
                Err(e) => res == Err::<(ParseInput<'a>, T2), ParseError>(e),
                Ok((mid, _)) => parser.ensures((mid,), res),
            },
{
    let (mid, _v1) = match prefix(input) {
        Ok(x) => x,
        Err(e) => { return Err(e); },
    };
    parser(mid)
}

/// Execute two parsers in a row, failing if either fails, and returns first parser's result
pub fn suffixed<'a, T1, T2, P, Q>(parser: P, suffix: Q, input: &'a [u8]) -> (res: ParseResult<
    'a,
    T1,
>) where
    P: Fn(&'a [u8]) -> ParseResult<'a, T1>,
    Q: Fn(&'a [u8]) -> ParseResult<'a, T2>,

    requires
        forall|i: &'a [u8]| #[trigger] parser.requires((i,)),
        forall|i: &'a [u8]| #[trigger] suffix.requires((i,)),
    ensures
        exists|r1: ParseResult<'a, T1>|
            #[trigger] parser.ensures((input,), r1) && match r1 {
                Err(e) => res == Err::<(ParseInput<'a>, T1), ParseError>(e),
                Ok((mid, v)) => exists|r2: ParseResult<'a, T2>|
                    #[trigger] suffix.ensures((mid,), r2) && match r2 {
                        Err(e) => res == Err::<(ParseInput<'a>, T1), ParseError>(e),
                        Ok((rest, _)) => res == Ok::<(ParseInput<'a>, T1), ParseError>((rest, v)),
                    },
            },
{
    let (mid, v) = match parser(input) {
        Ok(x) => x,
        Err(e) => { return Err(e); },
    };
    match suffix(mid) {
        Ok((rest, _)) => Ok((rest, v)),
        Err(e) => Err(e),
    }
}

/// Execute a parser, returning Some(value) if succeeds and None if fails
pub fn maybe<'a, T, P>(parser: P, input: &'a [u8]) -> (res: ParseResult<'a, Option<T>>) where
    P: Fn(&'a [u8]) -> ParseResult<'a, T>,

    requires
        parser.requires((input,)),
    ensures
        exists|r: ParseResult<'a, T>|
            #[trigger] parser.ensures((input,), r) && match r {
                Ok((rest, v)) => res == Ok::<(ParseInput<'a>, Option<T>), ParseError>((rest, Some(v))),
                Err(_) => res == Ok::<(ParseInput<'a>, Option<T>), ParseError>((input, None)),
            },
{
    match parser(input) {
        Ok((rest, v)) => Ok((rest, Some(v))),
        Err(_) => Ok((input, None)),
    }
}

/// `parser` can fail on `input`
pub open spec fn parse_fails<'a, T, P: Fn(&'a [u8]) -> ParseResult<'a, T>>(
    parser: P,
    input: &'a [u8],
) -> bool {
    exists|r: ParseResult<'a, T>| #[trigger] parser.ensures((input,), r) && r is Err
}

/// Applying `parser` repeatedly from `input` produced `values` and left `rest`, on which `parser`
/// then failed
pub open spec fn repetition_ends<'a, T, P: Fn(&'a [u8]) -> ParseResult<'a, T>>(
    parser: P,
    input: &'a [u8],
    rest: &'a [u8],
    values: Seq<T>,
) -> bool {
    &&& exists|inputs: Seq<&'a [u8]>|
        #[trigger] repeated_by(parser, inputs, values) && inputs[0] == input && inputs.last()
            == rest
    &&& parse_fails(parser, rest)
}

/// `parser` gives one result for each input
pub open spec fn deterministic<'a, T, P: Fn(&'a [u8]) -> ParseResult<'a, T>>(parser: P) -> bool {
    forall|i: &'a [u8], r1: ParseResult<'a, T>, r2: ParseResult<'a, T>|
        #![trigger parser.ensures((i,), r1), parser.ensures((i,), r2)]
        parser.ensures((i,), r1) && parser.ensures((i,), r2) ==> r1 == r2
}

/// What [`one_or_more`] returns: at least one value, from a repetition that ends where `parser`
/// fails, or an error when `parser` can fail on `input` itself
pub open spec fn one_or_more_result<'a, T, P: Fn(&'a [u8]) -> ParseResult<'a, T>>(
    parser: P,
    input: &'a [u8],
    res: ParseResult<'a, Vec<T>>,
) -> bool {
    match res {
        Ok((rest, values)) => values@.len() >= 1 && repetition_ends(parser, input, rest, values@),
        Err(_) => parse_fails(parser, input),
    }
}

/// What [`zero_or_more`] returns: never an error, and the values of a repetition that ends where
/// `parser` fails
pub open spec fn zero_or_more_result<'a, T, P: Fn(&'a [u8]) -> ParseResult<'a, T>>(
    parser: P,
    input: &'a [u8],
    res: ParseResult<'a, Vec<T>>,
) -> bool {
    match res {
        Ok((rest, values)) => repetition_ends(parser, input, rest, values@),
        Err(_) => false,
    }
}

/// Two repetitions of a parser that gives one result per input, from the same input, agree on
/// every step that both take
proof fn lemma_repetitions_agree<'a, T, P: Fn(&'a [u8]) -> ParseResult<'a, T>>(
    parser: P,
    ins1: Seq<&'a [u8]>,
    vs1: Seq<T>,
    ins2: Seq<&'a [u8]>,
    vs2: Seq<T>,
    j: int,
)
    requires
        deterministic(parser),
        repeated_by(parser, ins1, vs1),
        repeated_by(parser, ins2, vs2),
        ins1[0] == ins2[0],
        0 <= j < ins1.len(),
        j < ins2.len(),
    ensures
        forall|k: int| 0 <= k <= j ==> ins1[k] == ins2[k],
        forall|k: int| 0 <= k < j ==> vs1[k] == vs2[k],
    decreases j,
{
    if j > 0 {
        lemma_repetitions_agree(parser, ins1, vs1, ins2, vs2, j - 1);
        let i = j - 1;
        let r1 = Ok::<(&'a [u8], T), ParseError>((ins1[i + 1], vs1[i]));
        let r2 = Ok::<(&'a [u8], T), ParseError>((ins2[i + 1], vs2[i]));
        assert(0 <= i < vs1.len() && 0 <= i < vs2.len());
        assert(parser.ensures((ins1[i],), r1));
        assert(parser.ensures((ins2[i],), r2));
        assert(r1 == r2);
    }
}

/// A repetition that ends where `parser` fails is determined by its input, when `parser` gives
/// one result per input
pub proof fn lemma_repetition_determined<'a, T, P: Fn(&'a [u8]) -> ParseResult<'a, T>>(
    parser: P,
    input: &'a [u8],
    rest1: &'a [u8],
    values1: Seq<T>,
    rest2: &'a [u8],
    values2: Seq<T>,
)
    requires
        deterministic(parser),
        repetition_ends(parser, input, rest1, values1),
        repetition_ends(parser, input, rest2, values2),
    ensures
        rest1 == rest2,
        values1 == values2,
{
    let ins1 = choose|inputs: Seq<&'a [u8]>|
        #[trigger] repeated_by(parser, inputs, values1) && inputs[0] == input && inputs.last()
            == rest1;
    let ins2 = choose|inputs: Seq<&'a [u8]>|
        #[trigger] repeated_by(parser, inputs, values2) && inputs[0] == input && inputs.last()
            == rest2;
    let n1 = ins1.len() as int;
    let n2 = ins2.len() as int;
    if n1 < n2 {
        lemma_repetitions_agree(parser, ins1, values1, ins2, values2, n1 - 1);
        let e = choose|r: ParseResult<'a, T>| #[trigger] parser.ensures((rest1,), r) && r is Err;
        let ok = Ok::<(&'a [u8], T), ParseError>((ins2[n1], values2[n1 - 1]));
        assert(parser.ensures((ins2[n1 - 1],), ok));
        assert(e == ok);
        assert(false);
    } else if n2 < n1 {
        lemma_repetitions_agree(parser, ins2, values2, ins1, values1, n2 - 1);
        let e = choose|r: ParseResult<'a, T>| #[trigger] parser.ensures((rest2,), r) && r is Err;
        let ok = Ok::<(&'a [u8], T), ParseError>((ins1[n2], values1[n2 - 1]));
        assert(parser.ensures((ins1[n2 - 1],), ok));
        assert(e == ok);
        assert(false);
    } else {
        lemma_repetitions_agree(parser, ins1, values1, ins2, values2, n1 - 1);
        assert(values1 =~= values2);
    }
}

/// For a parser that gives one result per input, `zero_or_more` never fails: where the parser
/// fails on the input at once it returns the input untouched and no values, and otherwise it
/// returns what `one_or_more` returns
pub proof fn law_zero_or_more_is_one_or_more_or_nothing<'a, T, P: Fn(&'a [u8]) -> ParseResult<'a, T>>(
    parser: P,
    input: &'a [u8],
    zero: ParseResult<'a, Vec<T>>,
    one: ParseResult<'a, Vec<T>>,
)
    requires
        deterministic(parser),
        zero_or_more_result(parser, input, zero),
        one_or_more_result(parser, input, one),
    ensures
        zero is Ok,
        parse_fails(parser, input) ==> (zero matches Ok((rest, values)) && rest == input
            && values@.len() == 0),
        !parse_fails(parser, input) ==> (one matches Ok((r1, v1)) && zero matches Ok((r2, v2))
            && r1 == r2 && v1@ == v2@),
{
    let (rest, values) = zero.unwrap();
    if parse_fails(parser, input) {
        let ins = choose|inputs: Seq<&'a [u8]>|
            #[trigger] repeated_by(parser, inputs, values@) && inputs[0] == input && inputs.last()
                == rest;
        if values@.len() > 0 {
            let e = choose|r: ParseResult<'a, T>| #[trigger] parser.ensures((input,), r) && r is Err;
            let ok = Ok::<(&'a [u8], T), ParseError>((ins[0int + 1], values@[0]));
            assert(0 < values@.len());
            assert(parser.ensures((ins[0],), ok));
            assert(e == ok);
            assert(false);
        }
    } else {
        let (r1, v1) = one.unwrap();
        lemma_repetition_determined(parser, input, r1, v1@, rest, values@);
    }
}

/// Applies `parser` for as long as it succeeds, collecting its values; the returned input is what
/// the last success left, on which `parser` then failed
fn repeat<'a, T, P>(parser: P, input: &'a [u8]) -> (res: (&'a [u8], Vec<T>)) where
    P: Fn(&'a [u8]) -> ParseResult<'a, T>,

    requires
        forall|i: &'a [u8]| #[trigger] parser.requires((i,)),
        consumes_on_success(parser),
    ensures
        repetition_ends(parser, input, res.0, res.1@),
{
    let mut results: Vec<T> = Vec::new();
    let mut cur = input;
    let ghost mut inputs: Seq<&'a [u8]> = seq![input];
    loop
        invariant
            forall|i: &'a [u8]| #[trigger] parser.requires((i,)),
            consumes_on_success(parser),
            repeated_by(parser, inputs, results@),
            inputs[0] == input,
            inputs.last() == cur,
        decreases cur@.len(),
    {
        let r = parser(cur);
        match r {
            Ok((rest, v)) => {
                proof {
                    let old_inputs = inputs;
                    inputs = inputs.push(rest);
                    assert(forall|i: int|
                        0 <= i < old_inputs.len() ==> inputs[i] == old_inputs[i]);
                }
                results.push(v);
                cur = rest;
            },
            Err(_) => {
                assert(parser.ensures((cur,), r) && r is Err);
                assert(repeated_by(parser, inputs, results@));
                assert(repetition_ends(parser, input, cur, results@));
                return (cur, results);
            },
        }
    }
}

/// Takes while the parser returns true, returning a collection of parser results, or failing if
/// the parser did not succeed at least once
pub fn one_or_more<'a, T, P>(parser: P, input: &'a [u8]) -> (res: ParseResult<'a, Vec<T>>) where
    P: Fn(&'a [u8]) -> ParseResult<'a, T>,

    requires
        forall|i: &'a [u8]| #[trigger] parser.requires((i,)),
        consumes_on_success(parser),
    ensures
        one_or_more_result(parser, input, res),
{
    let (rest, results) = repeat(parser, input);
    if results.len() == 0 {
        proof {
            let inputs = choose|inputs: Seq<&'a [u8]>|
                #[trigger] repeated_by(parser, inputs, results@) && inputs[0] == input
                    && inputs.last() == rest;
            assert(rest == input);
        }
        return Err("Parser failed to suceed once");
    }
    Ok((rest, results))
}

/// Same as [`one_or_more`], but won't fail if the parser never succeeds
pub fn zero_or_more<'a, T, P>(parser: P, input: &'a [u8]) -> (res: ParseResult<'a, Vec<T>>) where
    P: Fn(&'a [u8]) -> ParseResult<'a, T>,

    requires
        forall|i: &'a [u8]| #[trigger] parser.requires((i,)),
        consumes_on_success(parser),
    ensures
        zero_or_more_result(parser, input, res),
{
    let (rest, results) = repeat(parser, input);
    Ok((rest, results))
}

/// Takes until `predicate` returns true, failing if nothing parsed
pub fn take_until_byte<'a, F>(predicate: F, input: &'a [u8]) -> (res: ParseResult<'a, &'a [u8]>) where
    F: Fn(u8) -> bool,

    requires
        forall|b: u8| #[trigger] predicate.requires((b,)),
    ensures
        match res {
            Ok((rest, value)) => {
                &&& value@.len() > 0
                &&& input@ == value@ + rest@
                &&& forall|i: int|
                    0 <= i < value@.len() ==> #[trigger] predicate.ensures((value@[i],), false)
                &&& rest@.len() > 0 ==> predicate.ensures((rest@[0],), true)
            },
            Err(_) => input@.len() == 0 || predicate.ensures((input@[0],), true),
        },
{
    if input.len() == 0 {
        return Err("Empty input");
    }
    let mut i: usize = 0;
    let mut found = false;
    while i < input.len() && !found
        invariant
            forall|b: u8| #[trigger] predicate.requires((b,)),
            i <= input@.len(),
            forall|j: int| 0 <= j < i ==> #[trigger] predicate.ensures((input@[j],), false),
            found ==> i < input@.len() && predicate.ensures((input@[i as int],), true),
        decreases input@.len() - i + (if found { 0int } else { 1int }),
    {
        if predicate(input[i]) {
            found = true;
        } else {
            i = i + 1;
        }
    }
    if i == 0 {
        return Err("Predicate immediately returned true");
    }
    let value = slice_subrange(input, 0, i);
    let rest = slice_subrange(input, i, input.len());
    assert(input@ == value@ + rest@);
    assert(forall|j: int| 0 <= j < value@.len() ==> value@[j] == input@[j]);
    Ok((rest, value))
}

/// Takes `cnt` bytes, failing if not enough bytes are available
pub fn take<'a>(cnt: usize, input: &'a [u8]) -> (res: ParseResult<'a, &'a [u8]>)
    ensures
        match res {
            Ok((rest, value)) => cnt <= input@.len() && value@ == input@.take(cnt as int)
                && rest@ == input@.skip(cnt as int),
            Err(_) => input@.len() < cnt,
        },
{
    if cnt <= input.len() {
        Ok((slice_subrange(input, cnt, input.len()), slice_subrange(input, 0, cnt)))
    } else {
        Err("Not enough bytes")
    }
}

/// Parse multiple bytes, failing if they do not match `expected` or there are not enough bytes
pub fn bytes<'a>(expected: &[u8], input: &'a [u8]) -> (res: ParseResult<'a, &'a [u8]>)
    ensures
        match res {
            Ok((rest, value)) => {
                &&& input@.len() > 0
                &&& expected@.len() <= input@.len()
                &&& is_prefix_of(expected@, input@)
                &&& value@ == expected@
                &&& rest@ == input@.skip(expected@.len() as int)
            },
            Err(_) => input@.len() == 0 || expected@.len() > input@.len() || !is_prefix_of(
                expected@,
                input@,
            ),
        },
{
    if input.len() == 0 {
        return Err("Empty input");
    } else if input.len() < expected.len() {
        return Err("Not enough bytes");
    }
    let mut i: usize = 0;
    while i < expected.len()
        invariant
            expected@.len() <= input@.len(),
            i <= expected@.len(),
            forall|j: int| 0 <= j < i ==> input@[j] == expected@[j],
        decreases expected@.len() - i,
    {
        if input[i] != expected[i] {
            return Err("Wrong bytes");
        }
        i = i + 1;
    }
    let value = slice_subrange(input, 0, expected.len());
    assert(value@ == expected@);
    Ok((slice_subrange(input, expected.len(), input.len()), value))
}

/// `prefix` occurs at the start of `s`
pub open spec fn is_prefix_of(prefix: Seq<u8>, s: Seq<u8>) -> bool {
    prefix.len() <= s.len() && s.take(prefix.len() as int) == prefix
}

/// Parse a single byte, failing if it does not match `expected`
pub fn byte<'a>(expected: u8, input: &'a [u8]) -> (res: ParseResult<'a, u8>)
    ensures
        match res {
            Ok((rest, b)) => input@.len() > 0 && input@[0] == expected && b == expected
                && rest@ == input@.skip(1),
            Err(_) => input@.len() == 0 || input@[0] != expected,
        },
{
    if input.len() == 0 {
        return Err("Empty input");
    }
    if input[0] == expected {
        Ok((slice_subrange(input, 1, input.len()), expected))
    } else {
        Err("Wrong byte")
    }
}

/// Length of the longest prefix of `s` in which no byte satisfies `stop`
pub open spec fn run_len(s: Seq<u8>, stop: spec_fn(u8) -> bool) -> nat
    decreases s.len(),
{
    if s.len() == 0 || stop(s[0]) {
        0
    } else {
        1 + run_len(s.drop_first(), stop)
    }
}

/// Length of the longest suffix of `s` in which no byte satisfies `stop`
pub open spec fn rev_run_len(s: Seq<u8>, stop: spec_fn(u8) -> bool) -> nat
    decreases s.len(),
{
    if s.len() == 0 || stop(s.last()) {
        0
    } else {
        1 + rev_run_len(s.drop_last(), stop)
    }
}

/// `run_len` is the position of the first byte that satisfies `stop`, or the length of `s`
pub proof fn lemma_run_len(s: Seq<u8>, stop: spec_fn(u8) -> bool, n: int)
    requires
        0 <= n <= s.len(),
        forall|j: int| 0 <= j < n ==> !stop(#[trigger] s[j]),
        n == s.len() || stop(s[n]),
    ensures
        run_len(s, stop) == n,
    decreases n,
{
    if n > 0 {
        assert forall|j: int| 0 <= j < n - 1 implies !stop(#[trigger] s.drop_first()[j]) by {
            assert(s.drop_first()[j] == s[j + 1]);
        }
        if n < s.len() {
            assert(s.drop_first()[n - 1] == s[n]);
        }
        lemma_run_len(s.drop_first(), stop, n - 1);
    }
}

/// `rev_run_len` counts the bytes after the last byte that satisfies `stop`
pub proof fn lemma_rev_run_len(s: Seq<u8>, stop: spec_fn(u8) -> bool, n: int)
    requires
        0 <= n <= s.len(),
        forall|j: int| s.len() - n <= j < s.len() ==> !stop(#[trigger] s[j]),
        n == s.len() || stop(s[s.len() - n - 1]),
    ensures
        rev_run_len(s, stop) == n,
    decreases n,
{
    if n > 0 {
        let t = s.drop_last();
        assert forall|j: int| t.len() - (n - 1) <= j < t.len() implies !stop(#[trigger] t[j]) by {
            assert(t[j] == s[j]);
        }
        if n < s.len() {
            assert(t[t.len() - (n - 1) - 1] == s[s.len() - n - 1]);
        }
        lemma_rev_run_len(t, stop, n - 1);
    }
}

/// Bytes of a run measured by `run_len` do not satisfy `stop`
pub proof fn lemma_run_len_bounds(s: Seq<u8>, stop: spec_fn(u8) -> bool)
    ensures
        run_len(s, stop) <= s.len(),
        forall|j: int| 0 <= j < run_len(s, stop) ==> !stop(#[trigger] s[j]),
        run_len(s, stop) < s.len() ==> stop(s[run_len(s, stop) as int]),
    decreases s.len(),
{
    if s.len() > 0 && !stop(s[0]) {
        lemma_run_len_bounds(s.drop_first(), stop);
        assert forall|j: int| 0 <= j < run_len(s, stop) implies !stop(#[trigger] s[j]) by {
            if j > 0 {
                assert(s[j] == s.drop_first()[j - 1]);
            }
        }
    }
}

/// `parsed` succeeded exactly as `expected` says: with the input left and the value it gives, or
/// failed where `expected` is `None`
pub open spec fn agrees<'a, T: View>(
    parsed: ParseResult<'a, T>,
    expected: Option<(Seq<u8>, T::V)>,
) -> bool {
    match parsed {
        Ok((rest, v)) => expected == Some((rest@, v@)),
        Err(_) => expected is None,
    }
}

/// The smaller of two integers
pub open spec fn min(x: int, y: int) -> int {
    if x <= y {
        x
    } else {
        y
    }
}

/// Scanning a prefix of `s` stops where scanning `s` does, or at the end of the prefix
pub proof fn lemma_run_len_take(s: Seq<u8>, stop: spec_fn(u8) -> bool, p: int)
    requires
        0 <= p <= s.len(),
    ensures
        run_len(s.take(p), stop) == min(run_len(s, stop) as int, p),
{
    lemma_run_len_bounds(s, stop);
    let r = min(run_len(s, stop) as int, p);
    let t = s.take(p);
    assert forall|j: int| 0 <= j < r implies !stop(#[trigger] t[j]) by {
        assert(t[j] == s[j]);
    }
    if r < p {
        assert(t[r] == s[r]);
    }
    lemma_run_len(t, stop, r);
}

/// Scanning `s` with one more byte at its end stops where scanning `s` does, unless the scan ran
/// to the end of `s`: then it stops at the new byte if that is a stopping one, and goes past it
/// otherwise
pub proof fn lemma_run_len_push(s: Seq<u8>, stop: spec_fn(u8) -> bool, x: u8)
    ensures
        run_len(s.push(x), stop) == if run_len(s, stop) < s.len() || stop(x) {
            run_len(s, stop) as int
        } else {
            s.len() + 1int
        },
{
    let t = s.push(x);
    assert(t.take(s.len() as int) =~= s);
    lemma_run_len_take(t, stop, s.len() as int);
    lemma_run_len_bounds(t, stop);
    lemma_run_len_bounds(s, stop);
    if run_len(s, stop) >= s.len() && !stop(x) {
        assert forall|j: int| 0 <= j < s.len() + 1 implies !stop(#[trigger] t[j]) by {
            if j < s.len() {
                assert(t[j] == s[j]);
            }
        }
        lemma_run_len(t, stop, (s.len() + 1) as int);
    }
    if run_len(t, stop) > s.len() {
        assert(!stop(t[s.len() as int]));
    }
}

/// `s` with the byte `y` put in at offset `j`
pub open spec fn insert_at(s: Seq<u8>, j: int, y: u8) -> Seq<u8> {
    s.take(j).push(y) + s.skip(j)
}

/// Bytes of `s` with `y` put in at offset `j`, each by its old offset
pub proof fn lemma_insert_at_index(s: Seq<u8>, j: int, y: u8)
    requires
        0 <= j <= s.len(),
    ensures
        insert_at(s, j, y).len() == s.len() + 1,
        insert_at(s, j, y)[j] == y,
        forall|q: int| 0 <= q < j ==> #[trigger] insert_at(s, j, y)[q] == s[q],
        forall|q: int| j <= q < s.len() ==> #[trigger] insert_at(s, j, y)[q + 1] == s[q],
{
    let t = insert_at(s, j, y);
    assert forall|q: int| j <= q < s.len() implies #[trigger] t[q + 1] == s[q] by {
        assert(t[q + 1] == s.skip(j)[q - j]);
    }
}

/// Scanning past a byte that does not stop the scan, put in where the scan had not stopped yet,
/// takes one byte more; put in past where the scan stopped, it changes nothing
pub proof fn lemma_run_len_insert(s: Seq<u8>, stop: spec_fn(u8) -> bool, j: int, y: u8)
    requires
        0 <= j <= s.len(),
        !stop(y),
        j == 0 || !stop(s[j - 1]),
    ensures
        run_len(insert_at(s, j, y), stop) == if run_len(s, stop) >= j {
            run_len(s, stop) + 1int
        } else {
            run_len(s, stop) as int
        },
{
    let t = insert_at(s, j, y);
    lemma_insert_at_index(s, j, y);
    lemma_run_len_bounds(s, stop);
    let r = run_len(s, stop) as int;
    if r >= j {
        assert forall|q: int| 0 <= q < r + 1 implies !stop(#[trigger] t[q]) by {
            if q < j {
                assert(t[q] == s[q]);
            } else if q > j {
                assert(t[(q - 1) + 1] == s[q - 1]);
            }
        }
        if r < s.len() {
            assert(t[r + 1] == s[r]);
        }
        lemma_run_len(t, stop, r + 1);
    } else {
        assert(r < j - 1 || j == 0);
        assert forall|q: int| 0 <= q < r implies !stop(#[trigger] t[q]) by {
            assert(t[q] == s[q]);
        }
        assert(t[r] == s[r]);
        lemma_run_len(t, stop, r);
    }
}

/// Scanning stops where it did when a byte is put in right after one that stops the scan
pub proof fn lemma_run_len_insert_after_stop(s: Seq<u8>, stop: spec_fn(u8) -> bool, j: int, y: u8)
    requires
        1 <= j <= s.len(),
        stop(s[j - 1]),
    ensures
        run_len(insert_at(s, j, y), stop) == run_len(s, stop),
{
    let t = insert_at(s, j, y);
    lemma_insert_at_index(s, j, y);
    lemma_run_len_bounds(s, stop);
    let r = run_len(s, stop) as int;
    assert(r <= j - 1);
    assert forall|q: int| 0 <= q < r implies !stop(#[trigger] t[q]) by {
        assert(t[q] == s[q]);
    }
    assert(t[r] == s[r]);
    lemma_run_len(t, stop, r);
}

/// Scanning stops at a stopping byte put in at offset `j`, if it had not stopped before
pub proof fn lemma_run_len_insert_stop(s: Seq<u8>, stop: spec_fn(u8) -> bool, j: int, y: u8)
    requires
        0 <= j <= s.len(),
        stop(y),
    ensures
        run_len(insert_at(s, j, y), stop) == min(run_len(s, stop) as int, j),
{
    let t = insert_at(s, j, y);
    lemma_insert_at_index(s, j, y);
    lemma_run_len_bounds(s, stop);
    let r = min(run_len(s, stop) as int, j);
    assert forall|q: int| 0 <= q < r implies !stop(#[trigger] t[q]) by {
        assert(t[q] == s[q]);
    }
    if r < j {
        assert(t[r] == s[r]);
    }
    lemma_run_len(t, stop, r);
}

/// Putting a byte in at or after offset `k` and then dropping the first `k` bytes is dropping
/// them first
pub proof fn lemma_insert_skip(s: Seq<u8>, j: int, y: u8, k: int)
    requires
        0 <= k <= j <= s.len(),
    ensures
        insert_at(s, j, y).skip(k) == insert_at(s.skip(k), j - k, y),
{
    assert(insert_at(s, j, y).skip(k) =~= insert_at(s.skip(k), j - k, y));
}

} // verus!
