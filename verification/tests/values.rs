use toml_patch::text::{split_str, trim_str};
use toml_patch::value::parse_value;

#[test]
fn parse_value_reads_booleans() {
    assert_eq!(parse_value("true").unwrap().as_bool(), Some(true));
    assert_eq!(parse_value("false").unwrap().as_bool(), Some(false));
    assert_eq!(parse_value("  true\t").unwrap().as_bool(), Some(true));
}

#[test]
fn parse_value_keeps_other_spellings_of_booleans_as_text() {
    assert_eq!(parse_value("True").unwrap().as_str(), Some("True"));
    assert_eq!(parse_value("FALSE").unwrap().as_str(), Some("FALSE"));
}

#[test]
fn parse_value_reads_the_deletion_mark() {
    assert!(parse_value("$undefined").is_none());
    assert!(parse_value("  $undefined \n").is_none());
}

#[test]
fn parse_value_reads_integers() {
    assert_eq!(parse_value("42").unwrap().as_integer(), Some(42));
    assert_eq!(parse_value("-17").unwrap().as_integer(), Some(-17));
    assert_eq!(parse_value("+8").unwrap().as_integer(), Some(8));
    assert_eq!(parse_value(" 007 ").unwrap().as_integer(), Some(7));
    assert_eq!(parse_value("0").unwrap().as_integer(), Some(0));
}

#[test]
fn parse_value_reads_the_ends_of_the_integer_range() {
    assert_eq!(parse_value("9223372036854775807").unwrap().as_integer(), Some(i64::MAX));
    assert_eq!(parse_value("-9223372036854775808").unwrap().as_integer(), Some(i64::MIN));
}

#[test]
fn parse_value_reads_numbers_out_of_range_as_floats() {
    let value = parse_value("9223372036854775808").unwrap();
    assert!(value.is_float());
    assert_eq!(value.as_float(), Some(9223372036854775808.0));
}

#[test]
fn parse_value_reads_floats() {
    assert_eq!(parse_value("3.14").unwrap().as_float(), Some(3.14));
    assert_eq!(parse_value(" -0.5 ").unwrap().as_float(), Some(-0.5));
    assert_eq!(parse_value("1e3").unwrap().as_float(), Some(1000.0));
    assert_eq!(parse_value("inf").unwrap().as_float(), Some(f64::INFINITY));
    assert!(parse_value("nan").unwrap().as_float().unwrap().is_nan());
}

#[test]
fn parse_value_takes_the_rest_as_text() {
    assert_eq!(parse_value("hello").unwrap().as_str(), Some("hello"));
    assert_eq!(parse_value("1.2.3").unwrap().as_str(), Some("1.2.3"));
    assert_eq!(parse_value("12abc").unwrap().as_str(), Some("12abc"));
    assert_eq!(parse_value("+").unwrap().as_str(), Some("+"));
    assert_eq!(parse_value("-").unwrap().as_str(), Some("-"));
    assert_eq!(parse_value("1_000").unwrap().as_str(), Some("1_000"));
    assert_eq!(parse_value("").unwrap().as_str(), Some(""));
}

#[test]
fn parse_value_keeps_white_space_in_text() {
    assert_eq!(parse_value("  padded text ").unwrap().as_str(), Some("  padded text "));
    assert_eq!(parse_value("   ").unwrap().as_str(), Some("   "));
}

#[test]
fn parse_value_reads_an_inner_sign_as_text() {
    assert_eq!(parse_value("4-2").unwrap().as_str(), Some("4-2"));
    assert_eq!(parse_value("--1").unwrap().as_str(), Some("--1"));
}

#[test]
fn trim_cuts_white_space_at_both_ends() {
    assert_eq!(trim_str("  a b \t\n"), "a b");
    assert_eq!(trim_str("x"), "x");
    assert_eq!(trim_str(""), "");
    assert_eq!(trim_str(" \t "), "");
    assert_eq!(trim_str("\u{a0}wide\u{3000}"), "wide");
}

#[test]
fn split_str_cuts_at_each_separator() {
    assert_eq!(split_str("a.b.c", '.'), vec!["a", "b", "c"]);
    assert_eq!(split_str("abc", '.'), vec!["abc"]);
    assert_eq!(split_str("", '.'), vec![""]);
    assert_eq!(split_str("..", '.'), vec!["", "", ""]);
    assert_eq!(split_str(".a", '.'), vec!["", "a"]);
    assert_eq!(split_str("a.", '.'), vec!["a", ""]);
}

#[test]
fn trim_knows_every_white_space_character() {
    let spaces = [
        '\u{9}', '\u{a}', '\u{b}', '\u{c}', '\u{d}', ' ', '\u{85}', '\u{a0}', '\u{1680}',
        '\u{2000}', '\u{2001}', '\u{2002}', '\u{2003}', '\u{2004}', '\u{2005}', '\u{2006}',
        '\u{2007}', '\u{2008}', '\u{2009}', '\u{200a}', '\u{2028}', '\u{2029}', '\u{202f}',
        '\u{205f}', '\u{3000}',
    ];
    for c in spaces {
        let text = format!("{}x{}", c, c);
        assert_eq!(trim_str(&text), "x");
    }
}

#[test]
fn trim_keeps_what_is_no_white_space() {
    let others = [
        '\u{8}', '\u{e}', '\u{1f}', '!', '\u{84}', '\u{86}', '\u{9f}', '\u{a1}', '\u{167f}',
        '\u{1681}', '\u{180e}', '\u{1fff}', '\u{200b}', '\u{2027}', '\u{202a}', '\u{202e}',
        '\u{2030}', '\u{205e}', '\u{2060}', '\u{2fff}', '\u{3001}', '\u{feff}',
    ];
    for c in others {
        let text = format!("{}x{}", c, c);
        assert_eq!(trim_str(&text), text);
    }
}

fn is_listed_white_space(c: char) -> bool {
    ('\u{9}' <= c && c <= '\u{d}')
        || c == ' '
        || c == '\u{85}'
        || c == '\u{a0}'
        || c == '\u{1680}'
        || ('\u{2000}' <= c && c <= '\u{200a}')
        || c == '\u{2028}'
        || c == '\u{2029}'
        || c == '\u{202f}'
        || c == '\u{205f}'
        || c == '\u{3000}'
}

#[test]
fn trim_cuts_the_listed_white_space_and_nothing_else() {
    for code in 0u32..0x11_0000 {
        if let Some(c) = char::from_u32(code) {
            let text = format!("{}", c);
            assert_eq!(trim_str(&text).is_empty(), is_listed_white_space(c));
        }
    }
}
