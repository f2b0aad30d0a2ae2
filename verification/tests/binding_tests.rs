//! Tests of the schema walk: binding, defaults, the style pass, and the
//! serialize/parse/bind round trip.

use navigate::settings::{Config, FormatSettings, GeneralSettings, StyleSettings};

#[test]
fn default_filling_on_missing_keys() {
    // binding an empty table tree yields the compile-time defaults and
    // exactly one "could not find" message per scalar field
    let mut s = GeneralSettings::default();
    let msgs = s.parse_from_string(&"".to_string());
    assert_eq!(msgs.len(), 8);
    for m in msgs.iter() {
        assert!(m.contains("could not find"));
    }
    assert_eq!(s.dedup_stack, false);
    assert_eq!(s.show_invalid_bookmarks, true);

    // at the configuration level the three sections are reported missing
    let mut c = Config::default();
    let msgs = c.parse_from_string(&"".to_string());
    assert_eq!(msgs.len(), 3);
    assert!(msgs[0].contains("no table `general` found"));
    assert!(msgs[1].contains("no table `format` found"));
    assert!(msgs[2].contains("no table `styles` found"));
    assert_eq!(c.format.stack_separator, "' - '");
}

#[test]
fn unrecognized_key_aggregation() {
    let mut s = GeneralSettings::default();
    let text = "dedup_stack = true\nbogus_key = 2\n";
    let msgs = s.parse_from_string(&text.to_string());
    assert_eq!(s.dedup_stack, true);
    // seven "could not find" messages for the other fields, then exactly
    // one aggregated message naming the leftover key
    assert_eq!(msgs.len(), 8);
    let leftovers: Vec<&String> =
        msgs.iter().filter(|m| m.contains("not recognised")).collect();
    assert_eq!(leftovers.len(), 1);
    assert_eq!(*leftovers[0], "the following settings were not recognised: [bogus_key]");
    assert!(!leftovers[0].contains("dedup_stack"));
}

#[test]
fn unparseable_value_keeps_default() {
    let mut s = GeneralSettings::default();
    let msgs = s.parse_from_string(&"dedup_stack = maybe\n".to_string());
    assert_eq!(s.dedup_stack, false);
    assert!(msgs.iter().any(|m| m.contains("failed to parse value found for `dedup_stack`")));
}

#[test]
fn scalar_field_defined_as_table_is_diagnosed() {
    let mut s = GeneralSettings::default();
    let msgs = s.parse_from_string(&"[dedup_stack]\n".to_string());
    assert_eq!(s.dedup_stack, false);
    assert!(msgs.iter().any(|m| m.contains(
        "`dedup_stack` is a setting element, but the configuration file defines it as a nested element"
    )));
}

#[test]
fn section_defined_as_setting_is_diagnosed() {
    let mut c = Config::default();
    let msgs = c.parse_from_string(&"general = 1\n".to_string());
    assert!(msgs.iter().any(|m| m.contains(
        "`general` is defined as a nested element, but the configuration file defines it a setting element"
    )));
}

#[test]
fn full_configuration_binds_section_by_section() {
    let text = "\
[general]
dedup_stack = true
rotate_stack_on_jump_to_entry = false
show_stack_on_push = true
show_stack_on_pop = false
show_invalid_stack_entries = false
show_entries_on_bookmark = false
show_invalid_bookmarks = false
cleanup_bookmarks = true

[format]
align_separators = false
show_home_as_tilde = true
stack_hide_numbers = false
stack_separator = ' :: '
bookmarks_separator = '='

[styles]
warning_style = 'yellow'
error_style = 'red, bold'
stack_number_style = 'default'
stack_separator_style = 'cyan'
stack_path_style = 'default'
stack_punct_style = 'magenta'
stack_invalid_style = 'strikethrough'
bookmarks_name_style = 'default'
bookmarks_seperator_style = 'cyan'
bookmarks_path_style = 'default'
bookmarks_punct_style = 'magenta'
bookmarks_invalid_style = 'strikethrough'
";
    let mut c = Config::default();
    let msgs = c.parse_from_string(&text.to_string());
    assert!(msgs.is_empty(), "unexpected diagnostics: {:?}", msgs);
    assert_eq!(c.general.dedup_stack, true);
    assert_eq!(c.general.cleanup_bookmarks, true);
    assert_eq!(c.format.align_separators, false);
    // quotes are stripped, inner blanks kept
    assert_eq!(c.format.stack_separator, " :: ");
    assert_eq!(c.format.bookmarks_separator, "=");
    assert_eq!(c.styles.warning_style, "yellow");
    assert_eq!(c.styles.error_style, "red, bold");
}

#[test]
fn serialize_parse_bind_round_trip() {
    // a fully-populated configuration whose values survive one line trip
    let mut original = Config::default();
    original.general.dedup_stack = true;
    original.general.show_stack_on_pop = true;
    original.general.show_invalid_bookmarks = false;
    original.format.align_separators = false;
    original.format.stack_separator = "-".to_string();
    original.format.bookmarks_separator = "::".to_string();
    original.styles.warning_style = "yellow, italic".to_string();
    original.styles.error_style = "red, bold".to_string();
    original.styles.stack_number_style = "default".to_string();
    original.styles.stack_separator_style = "cyan".to_string();
    original.styles.stack_path_style = "default".to_string();
    original.styles.stack_punct_style = "magenta".to_string();
    original.styles.stack_invalid_style = "strikethrough".to_string();
    original.styles.bookmarks_name_style = "default".to_string();
    original.styles.bookmarks_seperator_style = "cyan".to_string();
    original.styles.bookmarks_path_style = "default".to_string();
    original.styles.bookmarks_punct_style = "magenta".to_string();
    original.styles.bookmarks_invalid_style = "strikethrough".to_string();

    let text = original.to_string();
    let mut rebound = Config::default();
    let msgs = rebound.parse_from_string(&text);
    assert!(msgs.is_empty(), "round trip produced diagnostics: {:?}", msgs);

    assert_eq!(rebound.general.dedup_stack, original.general.dedup_stack);
    assert_eq!(rebound.general.show_stack_on_pop, original.general.show_stack_on_pop);
    assert_eq!(rebound.general.show_invalid_bookmarks, original.general.show_invalid_bookmarks);
    assert_eq!(rebound.format.align_separators, original.format.align_separators);
    assert_eq!(rebound.format.stack_separator, original.format.stack_separator);
    assert_eq!(rebound.format.bookmarks_separator, original.format.bookmarks_separator);
    assert_eq!(rebound.styles.warning_style, original.styles.warning_style);
    assert_eq!(rebound.styles.error_style, original.styles.error_style);
    assert_eq!(rebound.styles.stack_invalid_style, original.styles.stack_invalid_style);
    assert_eq!(rebound.styles.bookmarks_invalid_style, original.styles.bookmarks_invalid_style);
}

#[test]
fn serialized_form_has_headers_and_comments() {
    let c = Config::default();
    let text = c.to_string();
    assert!(text.contains("\n[general]\n"));
    assert!(text.contains("\n[format]\n"));
    assert!(text.contains("\n[styles]\n"));
    assert!(text.contains("dedup_stack = false\n"));
    assert!(text.contains("# (bool) delete all older occurences of paths in the stack\n"));
    assert!(text.contains("stack_separator = ' - '\n"));
    assert_eq!(c.to_formatted_string(), text);
}

#[test]
fn style_pass_compiles_flagged_fields() {
    let mut s = StyleSettings::default();
    s.warning_style = "bold, red".to_string();
    s.error_style = "#010203".to_string();
    s.stack_number_style = "notastyle".to_string();
    let msgs = s.to_ansi_sequences();
    assert_eq!(s.warning_style, "\x1b[1m\x1b[31m");
    assert_eq!(s.error_style, "\x1b[38;2;1;2;3m");
    // a failing descriptor keeps its raw value and reports once
    assert_eq!(s.stack_number_style, "notastyle");
    assert_eq!(msgs.len(), 1);
    assert!(msgs[0].contains("notastyle"));
    // the remaining defaults are quoted descriptors; quotes are token
    // separators, so they still compile
    assert_eq!(s.stack_separator_style, "\x1b[36m");
}

#[test]
fn style_pass_recurses_through_config() {
    let mut c = Config::default();
    c.styles.error_style = "red, bold".to_string();
    let msgs = c.to_ansi_sequences();
    assert!(msgs.is_empty(), "style pass produced diagnostics: {:?}", msgs);
    assert_eq!(c.styles.error_style, "\x1b[1m\x1b[31m");
    // the general and format sections carry no style fields
    assert_eq!(c.format.stack_separator, "' - '");
}

#[test]
fn nested_section_serialization_uses_dotted_paths() {
    let f = FormatSettings::default();
    let nested = f.to_string_nested(&"outer".to_string());
    assert!(!nested.contains("[outer]"));
    assert!(nested.contains("align_separators = true\n"));
    let g = GeneralSettings::default().to_string();
    assert!(g.contains("cleanup_bookmarks = false\n"));
}
