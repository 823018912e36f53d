use num_bigint::BigInt;
use respkv::bignum::{BigNum, Sign};
use respkv::decimal::{
    is_signed_decimal, parse_i64, parse_u16, parse_u64, parse_usize, push_digits, push_int,
};
use respkv::resp::double::{is_double, is_number, is_word};
use respkv::resp::parser::{find_crlf, parse, parse_element_length};
use respkv::resp::value::{encode_bulk, encode_line, Value};
use respkv::text::{bytes_eq, eq_ignore_case, names, text_of};

fn text(s: &str) -> String {
    s.to_string()
}

fn big(decimal: &str) -> BigNum {
    BigNum::parse_decimal(decimal.as_bytes()).unwrap()
}

fn round_trip(value: Value) {
    let wire = value.to_resp();
    let (used, back) = parse(&wire);
    assert_eq!(used, wire.len());
    assert_eq!(back, value);
}

#[test]
fn to_resp_writes_each_variant_in_its_one_form() {
    assert_eq!(Value::SimpleString(text("OK")).to_resp(), b"+OK\r\n");
    assert_eq!(Value::SimpleError(text("ERR no")).to_resp(), b"-ERR no\r\n");
    assert_eq!(Value::Integer(0).to_resp(), b":0\r\n");
    assert_eq!(Value::Integer(-42).to_resp(), b":-42\r\n");
    assert_eq!(Value::Integer(i64::MIN).to_resp(), b":-9223372036854775808\r\n");
    assert_eq!(Value::Integer(i64::MAX).to_resp(), b":9223372036854775807\r\n");
    assert_eq!(Value::BulkString(text("PING")).to_resp(), b"$4\r\nPING\r\n");
    assert_eq!(Value::BulkString(text("")).to_resp(), b"$0\r\n\r\n");
    assert_eq!(Value::Null.to_resp(), b"_\r\n");
    assert_eq!(Value::Boolean(true).to_resp(), b"#t\r\n");
    assert_eq!(Value::Boolean(false).to_resp(), b"#f\r\n");
    assert_eq!(Value::Double(text("1.23")).to_resp(), b",1.23\r\n");
    assert_eq!(Value::Double(text("-inf")).to_resp(), b",-inf\r\n");
    assert_eq!(Value::BigNumber(big("-12345678901234567890123")).to_resp(), b"(-12345678901234567890123\r\n");
    assert_eq!(Value::BulkError(text("SYNTAX invalid syntax")).to_resp(), b"!21\r\nSYNTAX invalid syntax\r\n");
}

#[test]
fn to_resp_counts_the_bytes_of_a_bulk_string() {
    assert_eq!(Value::BulkString(text("h\u{e9}")).to_resp(), b"$3\r\nh\xc3\xa9\r\n");
}

#[test]
fn to_resp_ends_an_array_with_a_terminator() {
    let array = Value::Array(vec![Value::Integer(1), Value::BulkString(text("a"))]);
    assert_eq!(array.to_resp(), b"*2\r\n:1\r\n$1\r\na\r\n\r\n");
    assert_eq!(Value::Array(vec![]).to_resp(), b"*0\r\n\r\n");
    let nested = Value::Array(vec![Value::Array(vec![Value::Null]), Value::Boolean(true)]);
    assert_eq!(nested.to_resp(), b"*2\r\n*1\r\n_\r\n\r\n#t\r\n\r\n");
}

#[test]
fn parse_gives_back_what_to_resp_wrote() {
    round_trip(Value::SimpleString(text("hello world")));
    round_trip(Value::SimpleString(text("")));
    round_trip(Value::SimpleString(text("ends with a return\r")));
    round_trip(Value::SimpleError(text("ERR \u{2603} snow")));
    round_trip(Value::Integer(0));
    round_trip(Value::Integer(-1));
    round_trip(Value::Integer(i64::MIN));
    round_trip(Value::Integer(i64::MAX));
    round_trip(Value::BulkString(text("")));
    round_trip(Value::BulkString(text("two\r\nlines")));
    round_trip(Value::BulkString(text("-1")));
    round_trip(Value::Null);
    round_trip(Value::Boolean(true));
    round_trip(Value::Boolean(false));
    round_trip(Value::Double(text("1.23")));
    round_trip(Value::Double(text("inf")));
    round_trip(Value::Double(text("-inf")));
    round_trip(Value::Double(text("nan")));
    round_trip(Value::Double(text("-2.5e-3")));
    round_trip(Value::BigNumber(big("0")));
    round_trip(Value::BigNumber(big("3492890328409238509324850943850943825024385")));
    round_trip(Value::BigNumber(big("-3492890328409238509324850943850943825024385")));
    round_trip(Value::BulkError(text("SYNTAX invalid\r\nsyntax")));
    round_trip(Value::Array(vec![]));
    round_trip(Value::Array(vec![
        Value::Array(vec![Value::Integer(1), Value::Array(vec![]), Value::Null]),
        Value::BulkString(text("")),
        Value::Array(vec![Value::SimpleString(text("Hello")), Value::SimpleError(text("World"))]),
        Value::Double(text("7")),
    ]));
}

#[test]
fn parse_cuts_a_simple_string_at_a_terminator_inside_it() {
    let wire = Value::SimpleString(text("a\r\nb")).to_resp();
    assert_eq!(wire, b"+a\r\nb\r\n");
    assert_eq!(parse(&wire), (4, Value::SimpleString(text("a"))));
}

#[test]
fn the_null_has_three_spellings_and_one_encoding() {
    assert_eq!(parse(b"_\r\n"), (3, Value::Null));
    assert_eq!(parse(b"$-1\r\n"), (5, Value::Null));
    assert_eq!(parse(b"*-1\r\n"), (5, Value::Null));
    assert_eq!(parse(b"!-1\r\n"), (5, Value::Null));
    assert_eq!(parse(b"$-1\r\n").1.to_resp(), b"_\r\n");
    assert_eq!(parse(b"*-1\r\n").1.to_resp(), b"_\r\n");
}

#[test]
fn encode_line_and_encode_bulk_frame_their_bytes() {
    assert_eq!(encode_line(b'+', b"PONG"), b"+PONG\r\n");
    assert_eq!(encode_line(b'_', b""), b"_\r\n");
    assert_eq!(encode_bulk(b'$', b"role:master"), b"$11\r\nrole:master\r\n");
    assert_eq!(encode_bulk(b'!', b""), b"!0\r\n\r\n");
}

#[test]
fn find_crlf_gives_the_first_terminator() {
    assert_eq!(find_crlf(b""), None);
    assert_eq!(find_crlf(b"\r"), None);
    assert_eq!(find_crlf(b"\n\r"), None);
    assert_eq!(find_crlf(b"\r\n"), Some(0));
    assert_eq!(find_crlf(b"ab\r\ncd\r\n"), Some(2));
    assert_eq!(find_crlf(b"a\r\r\n"), Some(2));
    assert_eq!(find_crlf(b"abc"), None);
}

#[test]
fn parse_element_length_gives_the_payload_and_the_bytes_taken() {
    assert_eq!(parse_element_length(b"4\r\nPING\r\n"), (9, Some(&b"PING"[..])));
    assert_eq!(parse_element_length(b"0\r\n\r\n"), (5, Some(&b""[..])));
    assert_eq!(parse_element_length(b"+2\r\nab"), (6, Some(&b"ab"[..])));
    assert_eq!(parse_element_length(b"9\r\nab"), (5, Some(&b"ab"[..])));
    assert_eq!(parse_element_length(b"-1\r\n"), (4, None));
    assert_eq!(parse_element_length(b"x\r\n"), (3, None));
    assert_eq!(parse_element_length(b""), (0, None));
}

#[test]
fn decimal_texts_are_read_exactly() {
    assert_eq!(parse_u64(b"0"), Some(0));
    assert_eq!(parse_u64(b"+17"), Some(17));
    assert_eq!(parse_u64(b"007"), Some(7));
    assert_eq!(parse_u64(b"18446744073709551615"), Some(u64::MAX));
    assert_eq!(parse_u64(b"18446744073709551616"), None);
    assert_eq!(parse_u64(b"-1"), None);
    assert_eq!(parse_u64(b""), None);
    assert_eq!(parse_u64(b"+"), None);
    assert_eq!(parse_u64(b"1 "), None);
    assert_eq!(parse_u64(b"++1"), None);
    assert_eq!(parse_usize(b"512"), Some(512));
    assert_eq!(parse_usize(b"5x"), None);
    assert_eq!(parse_u16(b"6379"), Some(6379));
    assert_eq!(parse_u16(b"65535"), Some(65535));
    assert_eq!(parse_u16(b"65536"), None);
    assert_eq!(parse_i64(b"-2"), Some(-2));
    assert_eq!(parse_i64(b"+5"), Some(5));
    assert_eq!(parse_i64(b"134445553333"), Some(134445553333));
    assert_eq!(parse_i64(b"-9223372036854775808"), Some(i64::MIN));
    assert_eq!(parse_i64(b"-9223372036854775809"), None);
    assert_eq!(parse_i64(b"9223372036854775807"), Some(i64::MAX));
    assert_eq!(parse_i64(b"9223372036854775808"), None);
    assert_eq!(parse_i64(b"-"), None);
    assert_eq!(parse_i64(b"1-"), None);
    assert!(is_signed_decimal(b"-000"));
    assert!(is_signed_decimal(b"99999999999999999999999999"));
    assert!(!is_signed_decimal(b"1_000"));
    assert!(!is_signed_decimal(b""));
}

#[test]
fn decimal_texts_are_written_exactly() {
    let mut out = b"n=".to_vec();
    push_digits(0, &mut out);
    assert_eq!(out, b"n=0");
    push_digits(9070, &mut out);
    assert_eq!(out, b"n=09070");
    let mut out = Vec::new();
    push_digits(u64::MAX, &mut out);
    assert_eq!(out, b"18446744073709551615");
    let mut out = Vec::new();
    push_int(-305, &mut out);
    push_int(12, &mut out);
    assert_eq!(out, b"-30512");
    let mut out = Vec::new();
    push_int(i64::MIN, &mut out);
    assert_eq!(out, b"-9223372036854775808");
}

#[test]
fn a_big_number_is_held_as_sign_and_bytes() {
    let n = big("-1125");
    assert_eq!(n.sign, Sign::Minus);
    assert_eq!(n.magnitude, vec![4, 101]);
    let zero = big("-0");
    assert_eq!(zero.sign, Sign::NoSign);
    assert_eq!(zero.to_decimal(), b"0");
    assert_eq!(big("+0065").to_decimal(), b"65");
    assert_eq!(big("65"), BigNum::new(Sign::Plus, vec![65]));
    assert_eq!(BigNum::new(Sign::Plus, vec![1, 0]).to_decimal(), b"256");
    assert_eq!(BigNum::new(Sign::Minus, vec![0, 1, 0]).to_decimal(), b"-256");
    assert_eq!(BigNum::new(Sign::NoSign, vec![9]).to_decimal(), b"0");
    assert_eq!(BigNum::new(Sign::Plus, vec![]).to_decimal(), b"0");
    let huge = "3492890328409238509324850943850943825024385";
    assert_eq!(big(huge).to_decimal(), huge.as_bytes());
    let expected = huge.parse::<BigInt>().unwrap().to_bytes_be().1;
    assert_eq!(big(huge).magnitude, expected);
}

#[test]
fn a_big_number_is_refused_unless_it_is_a_signed_decimal() {
    assert!(BigNum::parse_decimal(b"").is_none());
    assert!(BigNum::parse_decimal(b"-").is_none());
    assert!(BigNum::parse_decimal(b"1_000").is_none());
    assert!(BigNum::parse_decimal(b"12a").is_none());
    assert!(BigNum::parse_decimal(b" 12").is_none());
    assert!(BigNum::parse_decimal(b"-+5").is_none());
    assert!(BigNum::parse_decimal(b"+5").is_some());
}

#[test]
fn the_text_of_a_double_is_told_from_other_text() {
    for good in [
        "0", "-0", "+1", "1.", ".5", "1.5", "1e5", "1E5", "1e+5", "1.5e-5", ".5e0", "inf", "-inf",
        "nan", "+inf", "Inf", "NaN", "infinity", "-INFINITY", "+nan", "007", "1e999",
    ] {
        assert!(is_double(good.as_bytes()), "{}", good);
        assert!(good.parse::<f64>().is_ok(), "{}", good);
    }
    for bad in [
        "", "+", "-", ".", "e5", "1e", "1e+", "1.5.2", "1 ", " 1", "0x10", "1,5", "--1", "+-1",
        "in", "infinit", "infinityy", "nan0", "na", "1_0", "1e5.0", ".e5", "+.", "\u{661}",
    ] {
        assert!(!is_double(bad.as_bytes()), "{}", bad);
        assert!(bad.parse::<f64>().is_err(), "{}", bad);
    }
    assert!(is_number(b"12.5e3"));
    assert!(!is_number(b"inf"));
    assert!(is_word(b"-Infinity"));
    assert!(!is_word(b"12"));
}

#[test]
fn the_text_of_a_double_is_what_reads_as_a_float() {
    let alphabet = b"0123456789+-..eEinfatyINFANTY ";
    let mut state: u64 = 99;
    for _ in 0..200000 {
        let mut text = Vec::new();
        state = state.wrapping_mul(6364136223846793005).wrapping_add(1442695040888963407);
        let len = (state >> 33) % 9;
        for _ in 0..len {
            state = state.wrapping_mul(6364136223846793005).wrapping_add(1442695040888963407);
            text.push(alphabet[((state >> 33) as usize) % alphabet.len()]);
        }
        let string = String::from_utf8(text.clone()).unwrap();
        assert_eq!(is_double(&text), string.parse::<f64>().is_ok(), "{:?}", string);
    }
}

#[test]
fn text_is_taken_from_well_formed_utf8_only() {
    assert_eq!(text_of(b"plain"), Some(text("plain")));
    assert_eq!(text_of("h\u{e9}llo \u{2603}".as_bytes()), Some(text("h\u{e9}llo \u{2603}")));
    assert_eq!(text_of(b""), Some(text("")));
    assert_eq!(text_of(b"\xff"), None);
    assert_eq!(text_of(b"\xc3"), None);
    assert_eq!(text_of(b"\xed\xa0\x80"), None);
}

#[test]
fn names_are_compared_without_regard_to_ascii_case() {
    assert!(eq_ignore_case(b"ping", b"PING"));
    assert!(eq_ignore_case(b"PiNg", b"pInG"));
    assert!(eq_ignore_case(b"", b""));
    assert!(!eq_ignore_case(b"ping", b"pong"));
    assert!(!eq_ignore_case(b"ping", b"pin"));
    assert!(!eq_ignore_case(b"[", b"{"));
    assert!(!eq_ignore_case(b"@", b"`"));
    assert!(names(&text("listening-PORT"), "listening-port"));
    assert!(!names(&text("\u{17f}et"), "SET"));
    assert!(bytes_eq(b"abc", b"abc"));
    assert!(!bytes_eq(b"abc", b"abd"));
    assert!(!bytes_eq(b"abc", b"ab"));
}

#[test]
fn a_value_is_well_formed_when_its_doubles_are() {
    assert!(Value::Double(text("1.5")).is_wf());
    assert!(Value::Double(text("nan")).is_wf());
    assert!(!Value::Double(text("one")).is_wf());
    assert!(!Value::Double(text("")).is_wf());
    assert!(Value::SimpleString(text("a\r\nb")).is_wf());
    assert!(Value::Array(vec![Value::Null, Value::Array(vec![Value::Double(text("-inf"))])]).is_wf());
    assert!(!Value::Array(vec![Value::Null, Value::Array(vec![Value::Double(text("-In"))])]).is_wf());
    assert!(parse(b"*2\r\n,1e5\r\n,x\r\n").1.is_wf());
}

#[test]
fn a_big_number_of_many_digits_keeps_every_digit() {
    let mut decimal = String::from("-9");
    for i in 0..1500 {
        decimal.push(char::from(b'0' + (i * 7 % 10) as u8));
    }
    let n = big(&decimal);
    assert_eq!(n.sign, Sign::Minus);
    assert_eq!(n.to_decimal(), decimal.as_bytes());
    assert_eq!(decimal.parse::<BigInt>().unwrap().to_bytes_be().1, n.magnitude);
    let wire = Value::BigNumber(n).to_resp();
    assert_eq!(wire.len(), decimal.len() + 3);
    assert_eq!(parse(&wire).1.to_resp(), wire);
}
