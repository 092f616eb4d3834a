use zen_interp::num::{i64_to_dec, parse_i64};
use zen_interp::tokenize::tokenize;

#[test]
fn tokenize_quoted_run_kept_whole() {
    let toks = tokenize(b"foo \"a b\" bar");
    assert_eq!(
        toks,
        vec![b"foo".to_vec(), b"\"a b\"".to_vec(), b"bar".to_vec()]
    );
}

#[test]
fn tokenize_empty_line() {
    let toks = tokenize(b"");
    assert!(toks.is_empty());
    let toks2 = tokenize(b"   \t  ");
    assert!(toks2.is_empty());
}

#[test]
fn tokenize_unclosed_quote_falls_back_to_runs() {
    let toks = tokenize(b"\"ab cd");
    assert_eq!(toks, vec![b"\"ab".to_vec(), b"cd".to_vec()]);
}

#[test]
fn tokenize_quote_inside_run_is_swallowed() {
    let toks = tokenize(b"ab\"cd\"");
    assert_eq!(toks, vec![b"ab\"cd\"".to_vec()]);
}

#[test]
fn tokenize_empty_quotes() {
    let toks = tokenize(b"\"\" x");
    assert_eq!(toks, vec![b"\"\"".to_vec(), b"x".to_vec()]);
}

#[test]
fn tokenize_adjacent_quoted_and_run() {
    let toks = tokenize(b"\"a b\"c");
    assert_eq!(toks, vec![b"\"a b\"".to_vec(), b"c".to_vec()]);
}

#[test]
fn parse_plain_integers() {
    assert_eq!(parse_i64(b"42"), Some(42));
    assert_eq!(parse_i64(b"+7"), Some(7));
    assert_eq!(parse_i64(b"-13"), Some(-13));
    assert_eq!(parse_i64(b"0"), Some(0));
    assert_eq!(parse_i64(b"007"), Some(7));
}

#[test]
fn parse_rejects_junk() {
    assert_eq!(parse_i64(b""), None);
    assert_eq!(parse_i64(b"-"), None);
    assert_eq!(parse_i64(b"+"), None);
    assert_eq!(parse_i64(b"4x"), None);
    assert_eq!(parse_i64(b" 4"), None);
    assert_eq!(parse_i64(b"--4"), None);
}

#[test]
fn parse_extremes() {
    assert_eq!(parse_i64(b"9223372036854775807"), Some(i64::MAX));
    assert_eq!(parse_i64(b"-9223372036854775808"), Some(i64::MIN));
    assert_eq!(parse_i64(b"9223372036854775808"), None);
    assert_eq!(parse_i64(b"-9223372036854775809"), None);
    assert_eq!(parse_i64(b"99999999999999999999999999"), None);
}

#[test]
fn render_decimal_text() {
    assert_eq!(i64_to_dec(0), b"0".to_vec());
    assert_eq!(i64_to_dec(5), b"5".to_vec());
    assert_eq!(i64_to_dec(-5), b"-5".to_vec());
    assert_eq!(i64_to_dec(120), b"120".to_vec());
    assert_eq!(i64_to_dec(i64::MAX), b"9223372036854775807".to_vec());
    assert_eq!(i64_to_dec(i64::MIN), b"-9223372036854775808".to_vec());
}
