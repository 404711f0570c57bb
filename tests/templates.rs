use log_template::hint::{resolve_hint, DisplayHint, UnknownHintError};
use log_template::template::{parse, Fragment, TemplateError};

fn chars(s: &str) -> Vec<char> {
    s.chars().collect()
}

#[test]
fn literal_only_template() {
    let t = parse("hello").unwrap();
    assert_eq!(t.fragments(), &vec![Fragment::Literal("hello".to_string())]);
}

#[test]
fn placeholders_and_literals_in_order() {
    let t = parse("a={} b={:x}!").unwrap();
    assert_eq!(
        t.fragments(),
        &vec![
            Fragment::Literal("a=".to_string()),
            Fragment::Parameter(DisplayHint::Default),
            Fragment::Literal(" b=".to_string()),
            Fragment::Parameter(DisplayHint::LowerHex),
            Fragment::Literal("!".to_string()),
        ]
    );
}

#[test]
fn every_hint_spelling() {
    let t = parse("{}{:x}{:X}{:i}{:ipv4}{:ipv6}").unwrap();
    assert_eq!(
        t.fragments(),
        &vec![
            Fragment::Parameter(DisplayHint::Default),
            Fragment::Parameter(DisplayHint::LowerHex),
            Fragment::Parameter(DisplayHint::UpperHex),
            Fragment::Parameter(DisplayHint::IPv4),
            Fragment::Parameter(DisplayHint::IPv4),
            Fragment::Parameter(DisplayHint::IPv6),
        ]
    );
}

#[test]
fn escaped_delimiters_stay_literal() {
    let t = parse("{{}} {{x}}").unwrap();
    assert_eq!(t.fragments(), &vec![Fragment::Literal("{} {x}".to_string())]);
}

#[test]
fn empty_template_has_no_fragments() {
    let t = parse("").unwrap();
    assert!(t.fragments().is_empty());
}

#[test]
fn parameter_count_equals_placeholder_count() {
    let t = parse("{} and {{ {:x} }} then {:i}").unwrap();
    let params = t
        .fragments()
        .iter()
        .filter(|f| matches!(f, Fragment::Parameter(_)))
        .count();
    assert_eq!(params, 3);
}

#[test]
fn parsing_twice_gives_identical_fragments() {
    let a = parse("x={:X} y={}").unwrap();
    let b = parse("x={:X} y={}").unwrap();
    assert_eq!(a, b);
}

#[test]
fn unterminated_placeholder_is_malformed() {
    assert_eq!(parse("ab{"), Err(TemplateError::Malformed { offset: 2 }));
    assert_eq!(parse("x{:x"), Err(TemplateError::Malformed { offset: 1 }));
}

#[test]
fn stray_closing_brace_is_malformed() {
    assert_eq!(parse("ab}c"), Err(TemplateError::Malformed { offset: 2 }));
}

#[test]
fn body_without_colon_is_malformed() {
    assert_eq!(parse("v={abc}"), Err(TemplateError::Malformed { offset: 2 }));
}

#[test]
fn unknown_specifier_is_refused() {
    assert_eq!(parse("v={:q}"), Err(TemplateError::UnknownHint { offset: 2 }));
    assert_eq!(parse("{} {:ipv5}"), Err(TemplateError::UnknownHint { offset: 3 }));
}

#[test]
fn offsets_count_bytes() {
    assert_eq!(parse("é}"), Err(TemplateError::Malformed { offset: 2 }));
    assert_eq!(parse("日本{:z}"), Err(TemplateError::UnknownHint { offset: 6 }));
    assert_eq!(parse("🦀{{{"), Err(TemplateError::Malformed { offset: 6 }));
}

#[test]
fn non_ascii_literals_are_kept() {
    let t = parse("héllo {} 日本").unwrap();
    assert_eq!(
        t.fragments(),
        &vec![
            Fragment::Literal("héllo ".to_string()),
            Fragment::Parameter(DisplayHint::Default),
            Fragment::Literal(" 日本".to_string()),
        ]
    );
}

#[test]
fn resolver_accepts_the_vocabulary() {
    assert_eq!(resolve_hint(&chars("")), Ok(DisplayHint::Default));
    assert_eq!(resolve_hint(&chars("x")), Ok(DisplayHint::LowerHex));
    assert_eq!(resolve_hint(&chars("X")), Ok(DisplayHint::UpperHex));
    assert_eq!(resolve_hint(&chars("i")), Ok(DisplayHint::IPv4));
    assert_eq!(resolve_hint(&chars("ipv4")), Ok(DisplayHint::IPv4));
    assert_eq!(resolve_hint(&chars("ipv6")), Ok(DisplayHint::IPv6));
}

#[test]
fn resolver_never_defaults_unknown_tokens() {
    for t in ["d", "xx", "I", "ipv", "ipv44", "mac", " ", "x "] {
        assert_eq!(resolve_hint(&chars(t)), Err(UnknownHintError), "token {:?}", t);
    }
}
