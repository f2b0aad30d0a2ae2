//! Tests of the style compiler and sequence generators.

use navigate::format::{
    apply_format, generate_256color_sequence, generate_rgb_sequence, generate_style_sequence,
    make_padding_string, parse_color, parse_numbered_color, parse_rgb_color, parse_style,
    ColorContext, StyleError,
};

#[test]
fn style_compiler_round_trip() {
    // one style keyword and one named color: two complete sequences
    let compiled = parse_style(&"bold, red".to_string()).unwrap();
    assert_eq!(compiled, "\x1b[1m\x1b[31m");

    // a second color is an error
    let err = parse_style(&"red, blue".to_string()).unwrap_err();
    assert!(matches!(err, StyleError::TooManyColors(_)));
    assert!(err.message().contains("too many colors"));

    // a truecolor triplet
    let compiled = parse_style(&"#ff00ff".to_string()).unwrap();
    assert_eq!(compiled, "\x1b[38;2;255;0;255m");

    // an unknown token is a hard error naming the token
    let err = parse_style(&"notacolor".to_string()).unwrap_err();
    match &err {
        StyleError::UnknownToken(t) => assert_eq!(t, "notacolor"),
        _ => panic!("expected an unknown-token error"),
    }
    assert!(err.message().contains("notacolor"));
}

#[test]
fn style_tokens_are_lowercased_and_quote_split() {
    let compiled = parse_style(&"'Bold, RED'".to_string()).unwrap();
    assert_eq!(compiled, "\x1b[1m\x1b[31m");
}

#[test]
fn styles_combine_freely_color_comes_last() {
    let compiled = parse_style(&"cyan, bold, italic".to_string()).unwrap();
    // styles first, in encounter order, the single color appended
    assert_eq!(compiled, "\x1b[1m\x1b[3m\x1b[36m");
}

#[test]
fn palette_indexes_in_style_descriptors() {
    let compiled = parse_style(&"200".to_string()).unwrap();
    assert_eq!(compiled, "\x1b[38;5;200m");
    // every index down to 0 denotes a sequence
    let compiled = parse_style(&"5".to_string()).unwrap();
    assert_eq!(compiled, "\x1b[38;5;5m");
    let err = parse_style(&"5, red".to_string()).unwrap_err();
    assert!(matches!(err, StyleError::TooManyColors(_)));
    // 256 does not fit a palette index and matches nothing else
    let err = parse_style(&"256".to_string()).unwrap_err();
    assert!(matches!(err, StyleError::UnknownToken(_)));
}

#[test]
fn empty_descriptor_compiles_to_nothing() {
    assert_eq!(parse_style(&"".to_string()).unwrap(), "");
    assert_eq!(parse_style(&" , ".to_string()).unwrap(), "");
}

#[test]
fn rgb_parsing_is_exact() {
    assert_eq!(parse_rgb_color(&"#00ff7f".to_string()).unwrap(), "\x1b[38;2;0;255;127m");
    assert!(parse_rgb_color(&"#00ff7".to_string()).is_none());
    assert!(parse_rgb_color(&"00ff7f7".to_string()).is_none());
    assert!(parse_rgb_color(&"#00gg7f".to_string()).is_none());
    assert!(parse_rgb_color(&"#+1ff7f".to_string()).is_none());
}

#[test]
fn numbered_color_parsing_is_exact() {
    assert_eq!(parse_numbered_color(&"42".to_string()).unwrap(), "\x1b[38;5;42m");
    assert_eq!(parse_numbered_color(&"15".to_string()).unwrap(), "\x1b[38;5;15m");
    assert_eq!(parse_numbered_color(&"0255".to_string()).unwrap(), "\x1b[38;5;255m");
    assert!(parse_numbered_color(&"256".to_string()).is_none());
    assert!(parse_numbered_color(&"+3".to_string()).is_none());
    assert!(parse_numbered_color(&"".to_string()).is_none());
}

#[test]
fn parse_color_accepts_all_three_forms() {
    assert_eq!(parse_color("red".to_string()).unwrap(), "\x1b[31m");
    assert_eq!(parse_color("RED".to_string()).unwrap(), "\x1b[31m");
    assert_eq!(parse_color("7".to_string()).unwrap(), "\x1b[38;5;7m");
    assert_eq!(parse_color("#0a0b0c".to_string()).unwrap(), "\x1b[38;2;10;11;12m");
    let err = parse_color("#0a0b0g".to_string()).unwrap_err();
    assert!(matches!(err, StyleError::BadRgb(_)));
    let err = parse_color("nope".to_string()).unwrap_err();
    assert!(matches!(err, StyleError::UnknownToken(_)));
}

#[test]
fn sequence_generators() {
    assert_eq!(generate_style_sequence(Some("1"), None, None), "\x1b[1m");
    assert_eq!(generate_style_sequence(Some("1"), Some("31"), Some("41")), "\x1b[1;31;41m");
    assert_eq!(generate_256color_sequence(ColorContext::Foreground, 100), "\x1b[38;5;100m");
    assert_eq!(generate_256color_sequence(ColorContext::Background, 100), "\x1b[48;5;100m");
    assert_eq!(generate_256color_sequence(ColorContext::Foreground, 15), "\x1b[38;5;15m");
    assert_eq!(generate_256color_sequence(ColorContext::Foreground, 0), "\x1b[38;5;0m");
    assert_eq!(generate_rgb_sequence(ColorContext::Foreground, 1, 2, 3), "\x1b[38;2;1;2;3m");
    assert_eq!(generate_rgb_sequence(ColorContext::Background, 1, 2, 3), "\x1b[48;2;1;2;3m");
}

#[test]
fn apply_format_wraps_with_reset() {
    assert_eq!(apply_format("text", "\x1b[1m"), "\x1b[1mtext\x1b[0m");
}

#[test]
fn padding_strings() {
    assert_eq!(make_padding_string(0), "");
    assert_eq!(make_padding_string(3), "   ");
}
