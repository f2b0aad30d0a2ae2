//! Tests of the output accumulator and of the text utilities it rests on.

use navigate::output::Output;
use navigate::settings::Config;
use navigate::text::{dec_string, join_strings, parse_u8, str_lex_le, to_lower, trim_str};

#[test]
fn info_lines_are_echo_wrapped_and_joined() {
    let mut out = Output::new();
    out.push_info(&"hello".to_string());
    out.push_info(&"world".to_string());
    let line = out.render(&Config::default());
    assert_eq!(line, "echo 'hello' && echo 'world'");
}

#[test]
fn commands_come_last_unwrapped() {
    let mut out = Output::new();
    out.push_info(&"note".to_string());
    out.push_command(&"cd -- /tmp".to_string());
    let line = out.render(&Config::default());
    assert_eq!(line, "echo 'note' && cd -- /tmp");
}

#[test]
fn errors_are_styled_and_force_a_false_command() {
    let mut config = Config::default();
    let msgs = config.to_ansi_sequences();
    assert!(msgs.is_empty());
    let mut out = Output::new();
    out.push_error(&"boom".to_string());
    let line = out.render(&config);
    // error style 'red, bold' compiles to bold then red, and the
    // rendered line ends by failing the evaluated command
    assert_eq!(line, "echo '\x1b[1m\x1b[31mboom\x1b[0m' && false");
}

#[test]
fn warnings_use_the_warning_style() {
    let mut config = Config::default();
    config.to_ansi_sequences();
    let mut out = Output::new();
    out.push_warning(&"careful".to_string());
    let line = out.render(&config);
    // warning style 'yellow, italic': italic is a style, yellow the color
    assert_eq!(line, "echo '\x1b[3m\x1b[33mcareful\x1b[0m'");
}

#[test]
fn empty_output_renders_empty() {
    let mut out = Output::new();
    assert_eq!(out.render(&Config::default()), "");
}

#[test]
fn text_utility_basics() {
    assert_eq!(trim_str("  a b \t\r\n"), "a b");
    assert_eq!(trim_str(""), "");
    assert_eq!(to_lower("MiXeD 42!"), "mixed 42!");
    assert_eq!(dec_string(0), "0");
    assert_eq!(dec_string(90210), "90210");
    assert_eq!(parse_u8("255"), Some(255));
    assert_eq!(parse_u8("256"), None);
    assert_eq!(parse_u8("12a"), None);
    assert_eq!(parse_u8(""), None);
    assert_eq!(join_strings(&vec!["a".to_string(), "b".to_string()], "; "), "a; b");
    assert_eq!(join_strings(&Vec::new(), "; "), "");
    assert!(str_lex_le("abc", "abd"));
    assert!(str_lex_le("ab", "abc"));
    assert!(!str_lex_le("b", "abc"));
    assert!(str_lex_le("", ""));
}
