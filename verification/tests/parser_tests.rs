//! Tests of the line parser and tree builder.

use navigate::tree::{parse_config_file, remove_inline_comment, ConfigElement, ConfigMap};

/// Looks up a top-level setting value.
fn setting_of(map: &ConfigMap, key: &str) -> Option<String> {
    for e in map.entries.iter() {
        if e.key == key {
            if let ConfigElement::Setting(v) = &e.value {
                return Some(v.clone());
            }
        }
    }
    None
}

/// Looks up a nested table.
fn table_of<'a>(map: &'a ConfigMap, key: &str) -> Option<&'a ConfigMap> {
    for e in map.entries.iter() {
        if e.key == key {
            if let ConfigElement::Nested(m) = &e.value {
                return Some(m);
            }
        }
    }
    None
}

fn has_key(map: &ConfigMap, key: &str) -> bool {
    map.entries.iter().any(|e| e.key == key)
}

#[test]
fn comment_stripping_is_quote_aware() {
    let (map, msgs) = parse_config_file(&"key = \"a#b\"".to_string());
    assert!(msgs.is_empty());
    assert_eq!(setting_of(&map, "key").unwrap(), "a#b");

    let (map, msgs) = parse_config_file(&"key = value # trailing".to_string());
    assert!(msgs.is_empty());
    assert_eq!(setting_of(&map, "key").unwrap(), "value");
}

#[test]
fn first_equals_wins_splitting() {
    // The split happens at the first `=` only, so the value may itself
    // contain `=` characters.
    let (map, msgs) = parse_config_file(&"key = a=b=c".to_string());
    assert!(msgs.is_empty());
    assert_eq!(setting_of(&map, "key").unwrap(), "a=b=c");
}

#[test]
fn array_of_tables_rejected() {
    let (map, msgs) = parse_config_file(&"[[x]]\n".to_string());
    assert_eq!(msgs.len(), 1);
    assert!(msgs[0].contains("arrays are not supported"));
    assert!(!has_key(&map, "x"));
}

#[test]
fn quotes_stripped_from_values_everywhere() {
    let (map, msgs) = parse_config_file(&"a = 'x'\nb = \"y\"\nc = don't".to_string());
    assert!(msgs.is_empty());
    assert_eq!(setting_of(&map, "a").unwrap(), "x");
    assert_eq!(setting_of(&map, "b").unwrap(), "y");
    assert_eq!(setting_of(&map, "c").unwrap(), "dont");
}

#[test]
fn blank_lines_and_comments_skipped() {
    let (map, msgs) = parse_config_file(&"\n   \n# full line comment\n  # indented\nk = v\n".to_string());
    assert!(msgs.is_empty());
    assert_eq!(map.entries.len(), 1);
    assert_eq!(setting_of(&map, "k").unwrap(), "v");
}

#[test]
fn nested_tables_built_from_dotted_headers() {
    let text = "[a]\nx = 1\n[a.b]\ny = 2\n[c]\nz = 3\n";
    let (map, msgs) = parse_config_file(&text.to_string());
    assert!(msgs.is_empty());
    let a = table_of(&map, "a").unwrap();
    assert_eq!(setting_of(a, "x").unwrap(), "1");
    let b = table_of(a, "b").unwrap();
    assert_eq!(setting_of(b, "y").unwrap(), "2");
    let c = table_of(&map, "c").unwrap();
    assert_eq!(setting_of(c, "z").unwrap(), "3");
}

#[test]
fn unterminated_header_diagnosed_but_parsed() {
    let (map, msgs) = parse_config_file(&"[a\nk = v\n".to_string());
    assert_eq!(msgs.len(), 1);
    assert!(msgs[0].contains("not properly terminated"));
    let a = table_of(&map, "a").unwrap();
    assert_eq!(setting_of(a, "k").unwrap(), "v");
}

#[test]
fn whitespace_in_header_diagnosed() {
    let (_map, msgs) = parse_config_file(&"[a b]\n".to_string());
    assert_eq!(msgs.len(), 1);
    assert!(msgs[0].contains("no white space allowed"));
}

#[test]
fn header_collision_with_setting_diagnosed_and_skipped() {
    let (map, msgs) = parse_config_file(&"k = v\n[k]\nx = 1\n".to_string());
    assert_eq!(msgs.len(), 1);
    assert!(msgs[0].contains("`k`"));
    // the setting survives and the header was skipped, so `x` lands in
    // the table the pointer stood at: the root
    assert_eq!(setting_of(&map, "k").unwrap(), "v");
    assert_eq!(setting_of(&map, "x").unwrap(), "1");
}

#[test]
fn last_write_wins_within_one_table() {
    let (map, msgs) = parse_config_file(&"k = 1\nk = 2\n".to_string());
    assert!(msgs.is_empty());
    assert_eq!(map.entries.len(), 1);
    assert_eq!(setting_of(&map, "k").unwrap(), "2");
}

#[test]
fn malformed_setting_lines_dropped_silently() {
    let (map, msgs) = parse_config_file(&"= v\nk =\njusttext\n".to_string());
    assert!(msgs.is_empty());
    assert_eq!(map.entries.len(), 0);
}

#[test]
fn remove_inline_comment_basics() {
    assert_eq!(remove_inline_comment("a # b"), "a ");
    assert_eq!(remove_inline_comment("a '#' b"), "a '#' b");
    assert_eq!(remove_inline_comment("a \"#\" b"), "a \"#\" b");
    assert_eq!(remove_inline_comment("no comment"), "no comment");
    // unbalanced quotes keep the rest of the line quoted
    assert_eq!(remove_inline_comment("it's # not a comment"), "it's # not a comment");
}

#[test]
fn line_numbers_in_diagnostics_are_zero_based() {
    let (_map, msgs) = parse_config_file(&"ok = 1\n[[arr]]\n".to_string());
    assert_eq!(msgs.len(), 1);
    assert!(msgs[0].starts_with("error on line #1 - "));
}
