//! The typed settings structures of the tool, bound through the schema
//! walk: general behaviour switches, output format settings and style
//! descriptors, gathered under one [`Config`].

use vstd::prelude::*;

use crate::schema::{
    apply_styles, apply_styles_model, bind_record, bind_record_model, default_record,
    default_record_model, record_matches, record_slot_matches, serialize_model, serialize_record,
    FieldDef, FieldDefModel, FieldValue, FieldValueModel, Record, RecordValue, RecordValueModel,
    Schema, SchemaEntry, SchemaEntryModel,
};
use crate::tree::{parse_config_file, parse_text_model, ConfigMap};

verus! {

/// General behaviour switches.
pub struct GeneralSettings {
    /// (bool) delete all older occurences of paths in the stack
    pub dedup_stack: bool,
    /// (bool) rotate stack to chosen path when jumping to stack entry
    pub rotate_stack_on_jump_to_entry: bool,
    /// (bool) show stack when pushing a path to the stack
    pub show_stack_on_push: bool,
    /// (bool) show stack when popping a stack entry
    pub show_stack_on_pop: bool,
    /// (bool) show invalid stack entries
    pub show_invalid_stack_entries: bool,
    /// (bool) show bookmarks when adding, removing or changing to a bookmark
    pub show_entries_on_bookmark: bool,
    /// (bool) show invalid bookmarks when displaying bookmarks
    pub show_invalid_bookmarks: bool,
    /// (bool) remove invalid bookmarks on call
    pub cleanup_bookmarks: bool,
}

/// One scalar boolean schema entry with a comment.
pub open spec fn bool_field(name: Seq<char>, default: bool, comment: Seq<char>) -> SchemaEntryModel {
    SchemaEntryModel::Scalar(
        FieldDefModel {
            name: name,
            default: FieldValueModel::Boolean(default),
            style: false,
            no_config: false,
            comment: Some(comment),
        },
    )
}

/// One scalar text schema entry with a comment.
pub open spec fn text_field(
    name: Seq<char>,
    default: Seq<char>,
    style: bool,
    comment: Seq<char>,
) -> SchemaEntryModel {
    SchemaEntryModel::Scalar(
        FieldDefModel {
            name: name,
            default: FieldValueModel::Text(default),
            style: style,
            no_config: false,
            comment: Some(comment),
        },
    )
}

/// The schema of [`GeneralSettings`]: its fields in declaration order.
pub open spec fn general_schema() -> Seq<SchemaEntryModel> {
    seq![
        bool_field(
            "dedup_stack"@,
            false,
            " (bool) delete all older occurences of paths in the stack"@,
        ),
        bool_field(
            "rotate_stack_on_jump_to_entry"@,
            false,
            " (bool) rotate stack to chosen path when jumping to stack entry"@,
        ),
        bool_field(
            "show_stack_on_push"@,
            false,
            " (bool) show stack when pushing a path to the stack"@,
        ),
        bool_field(
            "show_stack_on_pop"@,
            false,
            " (bool) show stack when popping a stack entry"@,
        ),
        bool_field("show_invalid_stack_entries"@, false, " (bool) show invalid stack entries"@),
        bool_field(
            "show_entries_on_bookmark"@,
            false,
            " (bool) show bookmarks when adding, removing or changing to a bookmark"@,
        ),
        bool_field(
            "show_invalid_bookmarks"@,
            true,
            " (bool) show invalid bookmarks when displaying bookmarks"@,
        ),
        bool_field("cleanup_bookmarks"@, false, " (bool) remove invalid bookmarks on call"@),
    ]
}

/// The record a [`GeneralSettings`] value stands for.
pub open spec fn general_record(s: GeneralSettings) -> Seq<RecordValueModel> {
    seq![
        RecordValueModel::Value(FieldValueModel::Boolean(s.dedup_stack)),
        RecordValueModel::Value(FieldValueModel::Boolean(s.rotate_stack_on_jump_to_entry)),
        RecordValueModel::Value(FieldValueModel::Boolean(s.show_stack_on_push)),
        RecordValueModel::Value(FieldValueModel::Boolean(s.show_stack_on_pop)),
        RecordValueModel::Value(FieldValueModel::Boolean(s.show_invalid_stack_entries)),
        RecordValueModel::Value(FieldValueModel::Boolean(s.show_entries_on_bookmark)),
        RecordValueModel::Value(FieldValueModel::Boolean(s.show_invalid_bookmarks)),
        RecordValueModel::Value(FieldValueModel::Boolean(s.cleanup_bookmarks)),
    ]
}

/// A [`GeneralSettings`] record is always shaped like its schema.
pub proof fn lemma_general_matches(s: GeneralSettings)
    ensures
        record_matches(general_schema(), general_record(s)),
{
    assert forall|i: int| 0 <= i < general_schema().len() implies record_slot_matches(
        #[trigger] general_schema()[i],
        general_record(s)[i],
    ) by {
    }
}

fn bool_field_def(name: &str, default: bool, comment: &str) -> (r: SchemaEntry)
    ensures
        crate::schema::schema_entry_model(r) == bool_field(name@, default, comment@),
{
    SchemaEntry::Scalar(
        FieldDef {
            name: name.to_owned(),
            default: FieldValue::Boolean(default),
            style: false,
            no_config: false,
            comment: Some(comment.to_owned()),
        },
    )
}

fn text_field_def(name: &str, default: &str, style: bool, comment: &str) -> (r: SchemaEntry)
    ensures
        crate::schema::schema_entry_model(r) == text_field(name@, default@, style, comment@),
{
    SchemaEntry::Scalar(
        FieldDef {
            name: name.to_owned(),
            default: FieldValue::Text(default.to_owned()),
            style: style,
            no_config: false,
            comment: Some(comment.to_owned()),
        },
    )
}

proof fn lemma_schema_entries_pointwise(v: Seq<SchemaEntry>, expected: Seq<SchemaEntryModel>)
    requires
        v.len() == expected.len(),
        forall|i: int|
            0 <= i < v.len() ==> crate::schema::schema_entry_model(#[trigger] v[i]) == expected[i],
    ensures
        crate::schema::schema_entries_model(v) == expected,
{
    crate::schema::lemma_schema_entries_model_len(v);
    assert forall|i: int|
        0 <= i < v.len() implies crate::schema::schema_entries_model(v)[i] == expected[i] by {
        crate::schema::lemma_schema_entries_model_index(v, i);
    }
    assert(crate::schema::schema_entries_model(v) =~= expected);
}

proof fn lemma_values_pointwise(v: Seq<RecordValue>, expected: Seq<RecordValueModel>)
    requires
        v.len() == expected.len(),
        forall|i: int|
            0 <= i < v.len() ==> crate::schema::record_value_model(#[trigger] v[i]) == expected[i],
    ensures
        crate::schema::record_values_model(v) == expected,
{
    crate::schema::lemma_record_values_model_len(v);
    assert forall|i: int|
        0 <= i < v.len() implies crate::schema::record_values_model(v)[i] == expected[i] by {
        crate::schema::lemma_record_values_model_index(v, i);
    }
    assert(crate::schema::record_values_model(v) =~= expected);
}

impl GeneralSettings {
    /// The explicit schema registry entry for this structure.
    pub fn schema() -> (r: Schema)
        ensures
            r@ == general_schema(),
    {
        let mut entries: Vec<SchemaEntry> = Vec::new();
        entries.push(
            bool_field_def(
                "dedup_stack",
                false,
                " (bool) delete all older occurences of paths in the stack",
            ),
        );
        entries.push(
            bool_field_def(
                "rotate_stack_on_jump_to_entry",
                false,
                " (bool) rotate stack to chosen path when jumping to stack entry",
            ),
        );
        entries.push(
            bool_field_def(
                "show_stack_on_push",
                false,
                " (bool) show stack when pushing a path to the stack",
            ),
        );
        entries.push(
            bool_field_def(
                "show_stack_on_pop",
                false,
                " (bool) show stack when popping a stack entry",
            ),
        );
        entries.push(
            bool_field_def(
                "show_invalid_stack_entries",
                false,
                " (bool) show invalid stack entries",
            ),
        );
        entries.push(
            bool_field_def(
                "show_entries_on_bookmark",
                false,
                " (bool) show bookmarks when adding, removing or changing to a bookmark",
            ),
        );
        entries.push(
            bool_field_def(
                "show_invalid_bookmarks",
                true,
                " (bool) show invalid bookmarks when displaying bookmarks",
            ),
        );
        entries.push(
            bool_field_def("cleanup_bookmarks", false, " (bool) remove invalid bookmarks on call"),
        );
        proof {
            lemma_schema_entries_pointwise(entries@, general_schema());
        }
        Schema { entries }
    }

    /// An instance holding every field's compiled-in default.
    pub fn default() -> (r: GeneralSettings)
        ensures
            r.dedup_stack == false,
            r.rotate_stack_on_jump_to_entry == false,
            r.show_stack_on_push == false,
            r.show_stack_on_pop == false,
            r.show_invalid_stack_entries == false,
            r.show_entries_on_bookmark == false,
            r.show_invalid_bookmarks == true,
            r.cleanup_bookmarks == false,
            general_record(r) == default_record_model(general_schema()),
    {
        let r = GeneralSettings {
            dedup_stack: false,
            rotate_stack_on_jump_to_entry: false,
            show_stack_on_push: false,
            show_stack_on_pop: false,
            show_invalid_stack_entries: false,
            show_entries_on_bookmark: false,
            show_invalid_bookmarks: true,
            cleanup_bookmarks: false,
        };
        proof {
            crate::schema::lemma_default_record_model_len(general_schema());
            assert forall|i: int| 0 <= i < general_schema().len() implies default_record_model(
                general_schema(),
            )[i] == general_record(r)[i] by {
                crate::schema::lemma_default_record_model_index(general_schema(), i);
            }
            assert(general_record(r) =~= default_record_model(general_schema()));
        }
        r
    }

    /// The record carrying this structure's values.
    pub fn to_record(&self) -> (r: Record)
        ensures
            r@ == general_record(*self),
    {
        let mut values: Vec<RecordValue> = Vec::new();
        values.push(RecordValue::Value(FieldValue::Boolean(self.dedup_stack)));
        values.push(RecordValue::Value(FieldValue::Boolean(self.rotate_stack_on_jump_to_entry)));
        values.push(RecordValue::Value(FieldValue::Boolean(self.show_stack_on_push)));
        values.push(RecordValue::Value(FieldValue::Boolean(self.show_stack_on_pop)));
        values.push(RecordValue::Value(FieldValue::Boolean(self.show_invalid_stack_entries)));
        values.push(RecordValue::Value(FieldValue::Boolean(self.show_entries_on_bookmark)));
        values.push(RecordValue::Value(FieldValue::Boolean(self.show_invalid_bookmarks)));
        values.push(RecordValue::Value(FieldValue::Boolean(self.cleanup_bookmarks)));
        proof {
            lemma_values_pointwise(values@, general_record(*self));
        }
        Record { values }
    }

    /// Reads this structure's values back out of a record.
    pub fn from_record(r: &Record) -> (s: GeneralSettings)
        requires
            record_matches(general_schema(), r@),
        ensures
            general_record(s) == r@,
    {
        proof {
            crate::schema::lemma_record_values_model_len(r.values@);
            assert forall|i: int| 0 <= i < 8 implies record_slot_matches(
                #[trigger] general_schema()[i],
                r@[i],
            ) by {}
        }
        let s = GeneralSettings {
            dedup_stack: read_bool(r, 0),
            rotate_stack_on_jump_to_entry: read_bool(r, 1),
            show_stack_on_push: read_bool(r, 2),
            show_stack_on_pop: read_bool(r, 3),
            show_invalid_stack_entries: read_bool(r, 4),
            show_entries_on_bookmark: read_bool(r, 5),
            show_invalid_bookmarks: read_bool(r, 6),
            cleanup_bookmarks: read_bool(r, 7),
        };
        proof {
            assert(general_record(s) =~= r@);
        }
        s
    }

    /// Tries to parse configuration text into this structure: parsing and
    /// binding diagnostics come back in one ordered list, empty exactly
    /// when everything was recognised.
    pub fn parse_from_string(&mut self, input: &String) -> (msgs: Vec<String>)
        ensures
            ({
                let st = parse_text_model(input@);
                let b = bind_record_model(general_schema(), general_record(*old(self)), st.tree);
                general_record(*final(self)) == b.0 && msgs@.map_values(|m: String| m@) == st.msgs
                    + b.1
            }),
    {
        let parsed = parse_config_file(input);
        let mut msgs = parsed.1;
        let ghost parse_msgs = msgs@.map_values(|m: String| m@);
        let mut bind_msgs = self.parse_from_map(parsed.0);
        let ghost bound_msgs = bind_msgs@.map_values(|m: String| m@);
        msgs.append(&mut bind_msgs);
        proof {
            assert(msgs@.map_values(|m: String| m@) =~= parse_msgs + bound_msgs);
        }
        msgs
    }

    /// Binds one table of the tree onto this structure, consuming it; the
    /// returned diagnostics include one aggregated message naming any
    /// keys that no field matched.
    pub fn parse_from_map(&mut self, input: ConfigMap) -> (msgs: Vec<String>)
        ensures
            ({
                let b = bind_record_model(general_schema(), general_record(*old(self)), input@);
                general_record(*final(self)) == b.0 && msgs@.map_values(|m: String| m@) == b.1
            }),
    {
        let schema = Self::schema();
        let rec = self.to_record();
        proof {
            lemma_general_matches(*self);
        }
        let bound = bind_record(&schema, rec, input);
        *self = Self::from_record(&bound.0);
        bound.1
    }

    /// Compiles every style-flagged field; this structure has none, so it
    /// never changes and reports nothing.
    pub fn to_ansi_sequences(&mut self) -> (msgs: Vec<String>)
        ensures
            ({
                let b = apply_styles_model(general_schema(), general_record(*old(self)));
                general_record(*final(self)) == b.0 && msgs@.map_values(|m: String| m@) == b.1
            }),
    {
        let schema = Self::schema();
        let rec = self.to_record();
        proof {
            lemma_general_matches(*self);
        }
        let styled = apply_styles(&schema, rec);
        *self = Self::from_record(&styled.0);
        styled.1
    }

    /// Serializes this structure as a top-level settings listing.
    pub fn to_string(&self) -> (r: String)
        ensures
            r@ == serialize_model(general_schema(), general_record(*self), ""@),
    {
        let schema = Self::schema();
        let rec = self.to_record();
        proof {
            lemma_general_matches(*self);
        }
        serialize_record(&schema, &rec, "")
    }

    /// Serializes this structure as the body of the section named by the
    /// dotted path `parents`.
    pub fn to_string_nested(&self, parents: &String) -> (r: String)
        ensures
            r@ == serialize_model(general_schema(), general_record(*self), parents@),
    {
        let schema = Self::schema();
        let rec = self.to_record();
        proof {
            lemma_general_matches(*self);
        }
        serialize_record(&schema, &rec, parents.as_str())
    }
}

/// Output format settings.
pub struct FormatSettings {
    /// (bool) add padding before the separator if true, after if false
    pub align_separators: bool,
    /// (bool) replace home directory path with '~' when displaying the stack or bookmarks
    pub show_home_as_tilde: bool,
    /// (bool) hide numbers when displaying the stack
    pub stack_hide_numbers: bool,
    /// (string) separator between stack numbers and paths
    pub stack_separator: String,
    /// (string) separator between bookmark names and paths
    pub bookmarks_separator: String,
}

/// The schema of [`FormatSettings`]: its fields in declaration order.
pub open spec fn format_schema() -> Seq<SchemaEntryModel> {
    seq![
        bool_field(
            "align_separators"@,
            true,
            " (bool) add padding before the separator if true, after if false"@,
        ),
        bool_field(
            "show_home_as_tilde"@,
            false,
            " (bool) replace home directory path with '~' when displaying the stack or bookmarks"@,
        ),
        bool_field(
            "stack_hide_numbers"@,
            false,
            " (bool) hide numbers when displaying the stack"@,
        ),
        text_field(
            "stack_separator"@,
            "' - '"@,
            false,
            " (string) separator between stack numbers and paths"@,
        ),
        text_field(
            "bookmarks_separator"@,
            "' - '"@,
            false,
            " (string) separator between bookmark names and paths"@,
        ),
    ]
}

/// The record a [`FormatSettings`] value stands for.
pub open spec fn format_record(s: FormatSettings) -> Seq<RecordValueModel> {
    seq![
        RecordValueModel::Value(FieldValueModel::Boolean(s.align_separators)),
        RecordValueModel::Value(FieldValueModel::Boolean(s.show_home_as_tilde)),
        RecordValueModel::Value(FieldValueModel::Boolean(s.stack_hide_numbers)),
        RecordValueModel::Value(FieldValueModel::Text(s.stack_separator@)),
        RecordValueModel::Value(FieldValueModel::Text(s.bookmarks_separator@)),
    ]
}

/// A [`FormatSettings`] record is always shaped like its schema.
pub proof fn lemma_format_matches(s: FormatSettings)
    ensures
        record_matches(format_schema(), format_record(s)),
{
    assert forall|i: int| 0 <= i < format_schema().len() implies record_slot_matches(
        #[trigger] format_schema()[i],
        format_record(s)[i],
    ) by {
    }
}

impl FormatSettings {
    /// The explicit schema registry entry for this structure.
    pub fn schema() -> (r: Schema)
        ensures
            r@ == format_schema(),
    {
        let mut entries: Vec<SchemaEntry> = Vec::new();
        entries.push(
            bool_field_def(
                "align_separators",
                true,
                " (bool) add padding before the separator if true, after if false",
            ),
        );
        entries.push(
            bool_field_def(
                "show_home_as_tilde",
                false,
                " (bool) replace home directory path with '~' when displaying the stack or bookmarks",
            ),
        );
        entries.push(
            bool_field_def(
                "stack_hide_numbers",
                false,
                " (bool) hide numbers when displaying the stack",
            ),
        );
        entries.push(
            text_field_def(
                "stack_separator",
                "' - '",
                false,
                " (string) separator between stack numbers and paths",
            ),
        );
        entries.push(
            text_field_def(
                "bookmarks_separator",
                "' - '",
                false,
                " (string) separator between bookmark names and paths",
            ),
        );
        proof {
            lemma_schema_entries_pointwise(entries@, format_schema());
        }
        Schema { entries }
    }

    /// An instance holding every field's compiled-in default.
    pub fn default() -> (r: FormatSettings)
        ensures
            r.align_separators == true,
            r.show_home_as_tilde == false,
            r.stack_hide_numbers == false,
            r.stack_separator@ == "' - '"@,
            r.bookmarks_separator@ == "' - '"@,
            format_record(r) == default_record_model(format_schema()),
    {
        let r = FormatSettings {
            align_separators: true,
            show_home_as_tilde: false,
            stack_hide_numbers: false,
            stack_separator: String::from_str("' - '"),
            bookmarks_separator: String::from_str("' - '"),
        };
        proof {
            crate::schema::lemma_default_record_model_len(format_schema());
            assert forall|i: int| 0 <= i < format_schema().len() implies default_record_model(
                format_schema(),
            )[i] == format_record(r)[i] by {
                crate::schema::lemma_default_record_model_index(format_schema(), i);
            }
            assert(format_record(r) =~= default_record_model(format_schema()));
        }
        r
    }

    /// The record carrying this structure's values.
    pub fn to_record(&self) -> (r: Record)
        ensures
            r@ == format_record(*self),
    {
        let mut values: Vec<RecordValue> = Vec::new();
        values.push(RecordValue::Value(FieldValue::Boolean(self.align_separators)));
        values.push(RecordValue::Value(FieldValue::Boolean(self.show_home_as_tilde)));
        values.push(RecordValue::Value(FieldValue::Boolean(self.stack_hide_numbers)));
        values.push(RecordValue::Value(FieldValue::Text(self.stack_separator.clone())));
        values.push(RecordValue::Value(FieldValue::Text(self.bookmarks_separator.clone())));
        proof {
            lemma_values_pointwise(values@, format_record(*self));
        }
        Record { values }
    }

    /// Reads this structure's values back out of a record.
    pub fn from_record(r: &Record) -> (s: FormatSettings)
        requires
            record_matches(format_schema(), r@),
        ensures
            format_record(s) == r@,
    {
        proof {
            crate::schema::lemma_record_values_model_len(r.values@);
            assert forall|i: int| 0 <= i < 5 implies record_slot_matches(
                #[trigger] format_schema()[i],
                r@[i],
            ) by {}
        }
        let s = FormatSettings {
            align_separators: read_bool(r, 0),
            show_home_as_tilde: read_bool(r, 1),
            stack_hide_numbers: read_bool(r, 2),
            stack_separator: read_text(r, 3),
            bookmarks_separator: read_text(r, 4),
        };
        proof {
            assert(format_record(s) =~= r@);
        }
        s
    }

    /// Tries to parse configuration text into this structure.
    pub fn parse_from_string(&mut self, input: &String) -> (msgs: Vec<String>)
        ensures
            ({
                let st = parse_text_model(input@);
                let b = bind_record_model(format_schema(), format_record(*old(self)), st.tree);
                format_record(*final(self)) == b.0 && msgs@.map_values(|m: String| m@) == st.msgs
                    + b.1
            }),
    {
        let parsed = parse_config_file(input);
        let mut msgs = parsed.1;
        let ghost parse_msgs = msgs@.map_values(|m: String| m@);
        let mut bind_msgs = self.parse_from_map(parsed.0);
        let ghost bound_msgs = bind_msgs@.map_values(|m: String| m@);
        msgs.append(&mut bind_msgs);
        proof {
            assert(msgs@.map_values(|m: String| m@) =~= parse_msgs + bound_msgs);
        }
        msgs
    }

    /// Binds one table of the tree onto this structure, consuming it.
    pub fn parse_from_map(&mut self, input: ConfigMap) -> (msgs: Vec<String>)
        ensures
            ({
                let b = bind_record_model(format_schema(), format_record(*old(self)), input@);
                format_record(*final(self)) == b.0 && msgs@.map_values(|m: String| m@) == b.1
            }),
    {
        let schema = Self::schema();
        let rec = self.to_record();
        proof {
            lemma_format_matches(*self);
        }
        let bound = bind_record(&schema, rec, input);
        *self = Self::from_record(&bound.0);
        bound.1
    }

    /// Compiles every style-flagged field; this structure has none.
    pub fn to_ansi_sequences(&mut self) -> (msgs: Vec<String>)
        ensures
            ({
                let b = apply_styles_model(format_schema(), format_record(*old(self)));
                format_record(*final(self)) == b.0 && msgs@.map_values(|m: String| m@) == b.1
            }),
    {
        let schema = Self::schema();
        let rec = self.to_record();
        proof {
            lemma_format_matches(*self);
        }
        let styled = apply_styles(&schema, rec);
        *self = Self::from_record(&styled.0);
        styled.1
    }

    /// Serializes this structure as a top-level settings listing.
    pub fn to_string(&self) -> (r: String)
        ensures
            r@ == serialize_model(format_schema(), format_record(*self), ""@),
    {
        let schema = Self::schema();
        let rec = self.to_record();
        proof {
            lemma_format_matches(*self);
        }
        serialize_record(&schema, &rec, "")
    }

    /// Serializes this structure as the body of a nested section.
    pub fn to_string_nested(&self, parents: &String) -> (r: String)
        ensures
            r@ == serialize_model(format_schema(), format_record(*self), parents@),
    {
        let schema = Self::schema();
        let rec = self.to_record();
        proof {
            lemma_format_matches(*self);
        }
        serialize_record(&schema, &rec, parents.as_str())
    }
}

/// Style descriptors for the tool's output, compiled to ANSI escape
/// sequences by the style pass.
pub struct StyleSettings {
    /// (string) style applied to warnings
    pub warning_style: String,
    /// (string) style applied to errors
    pub error_style: String,
    /// (string) style applied to numbers when displaying the stack
    pub stack_number_style: String,
    /// (string) style applied to separators when displaying the stack
    pub stack_separator_style: String,
    /// (string) style applied to paths when displaying the stack
    pub stack_path_style: String,
    /// (string) style applied to punctuation (i.e. '/') when displaying the stack
    pub stack_punct_style: String,
    /// (string) style applied to punctuation (i.e. '/') when displaying the stack
    pub stack_invalid_style: String,
    /// (string) style applied to bookmark names when displaying the bookmarks
    pub bookmarks_name_style: String,
    /// (string) style applied to separators when displaying the bookmarks
    pub bookmarks_seperator_style: String,
    /// (string) style applied to paths when displaying the bookmarks
    pub bookmarks_path_style: String,
    /// (string) style applied to punctuation (i.e. '/') when displaying the bookmarks
    pub bookmarks_punct_style: String,
    /// (string) style applied to punctuation (i.e. '/') when displaying the bookmarks
    pub bookmarks_invalid_style: String,
}

/// The schema of [`StyleSettings`]: its fields in declaration order.
pub open spec fn styles_schema() -> Seq<SchemaEntryModel> {
    seq![
        text_field("warning_style"@, "'yellow, italic'"@, true, " (string) style applied to warnings"@),
        text_field("error_style"@, "'red, bold'"@, true, " (string) style applied to errors"@),
        text_field("stack_number_style"@, "'default'"@, true, " (string) style applied to numbers when displaying the stack"@),
        text_field("stack_separator_style"@, "'cyan'"@, true, " (string) style applied to separators when displaying the stack"@),
        text_field("stack_path_style"@, "'default'"@, true, " (string) style applied to paths when displaying the stack"@),
        text_field("stack_punct_style"@, "'magenta'"@, true, " (string) style applied to punctuation (i.e. '/') when displaying the stack"@),
        text_field("stack_invalid_style"@, "'default, strikethrough'"@, true, " (string) style applied to punctuation (i.e. '/') when displaying the stack"@),
        text_field("bookmarks_name_style"@, "'default'"@, true, " (string) style applied to bookmark names when displaying the bookmarks"@),
        text_field("bookmarks_seperator_style"@, "'cyan'"@, true, " (string) style applied to separators when displaying the bookmarks"@),
        text_field("bookmarks_path_style"@, "'default'"@, true, " (string) style applied to paths when displaying the bookmarks"@),
        text_field("bookmarks_punct_style"@, "'magenta'"@, true, " (string) style applied to punctuation (i.e. '/') when displaying the bookmarks"@),
        text_field("bookmarks_invalid_style"@, "'strikethrough'"@, true, " (string) style applied to punctuation (i.e. '/') when displaying the bookmarks"@),
    ]
}

/// The record a [`StyleSettings`] value stands for.
pub open spec fn styles_record(s: StyleSettings) -> Seq<RecordValueModel> {
    seq![
        RecordValueModel::Value(FieldValueModel::Text(s.warning_style@)),
        RecordValueModel::Value(FieldValueModel::Text(s.error_style@)),
        RecordValueModel::Value(FieldValueModel::Text(s.stack_number_style@)),
        RecordValueModel::Value(FieldValueModel::Text(s.stack_separator_style@)),
        RecordValueModel::Value(FieldValueModel::Text(s.stack_path_style@)),
        RecordValueModel::Value(FieldValueModel::Text(s.stack_punct_style@)),
        RecordValueModel::Value(FieldValueModel::Text(s.stack_invalid_style@)),
        RecordValueModel::Value(FieldValueModel::Text(s.bookmarks_name_style@)),
        RecordValueModel::Value(FieldValueModel::Text(s.bookmarks_seperator_style@)),
        RecordValueModel::Value(FieldValueModel::Text(s.bookmarks_path_style@)),
        RecordValueModel::Value(FieldValueModel::Text(s.bookmarks_punct_style@)),
        RecordValueModel::Value(FieldValueModel::Text(s.bookmarks_invalid_style@)),
    ]
}

/// A [`StyleSettings`] record is always shaped like its schema.
pub proof fn lemma_styles_matches(s: StyleSettings)
    ensures
        record_matches(styles_schema(), styles_record(s)),
{
    assert forall|i: int| 0 <= i < styles_schema().len() implies record_slot_matches(
        #[trigger] styles_schema()[i],
        styles_record(s)[i],
    ) by {
    }
}

impl StyleSettings {
    /// The explicit schema registry entry for this structure.
    pub fn schema() -> (r: Schema)
        ensures
            r@ == styles_schema(),
    {
        let mut entries: Vec<SchemaEntry> = Vec::new();
        entries.push(text_field_def("warning_style", "'yellow, italic'", true, " (string) style applied to warnings"));
        entries.push(text_field_def("error_style", "'red, bold'", true, " (string) style applied to errors"));
        entries.push(text_field_def("stack_number_style", "'default'", true, " (string) style applied to numbers when displaying the stack"));
        entries.push(text_field_def("stack_separator_style", "'cyan'", true, " (string) style applied to separators when displaying the stack"));
        entries.push(text_field_def("stack_path_style", "'default'", true, " (string) style applied to paths when displaying the stack"));
        entries.push(text_field_def("stack_punct_style", "'magenta'", true, " (string) style applied to punctuation (i.e. '/') when displaying the stack"));
        entries.push(text_field_def("stack_invalid_style", "'default, strikethrough'", true, " (string) style applied to punctuation (i.e. '/') when displaying the stack"));
        entries.push(text_field_def("bookmarks_name_style", "'default'", true, " (string) style applied to bookmark names when displaying the bookmarks"));
        entries.push(text_field_def("bookmarks_seperator_style", "'cyan'", true, " (string) style applied to separators when displaying the bookmarks"));
        entries.push(text_field_def("bookmarks_path_style", "'default'", true, " (string) style applied to paths when displaying the bookmarks"));
        entries.push(text_field_def("bookmarks_punct_style", "'magenta'", true, " (string) style applied to punctuation (i.e. '/') when displaying the bookmarks"));
        entries.push(text_field_def("bookmarks_invalid_style", "'strikethrough'", true, " (string) style applied to punctuation (i.e. '/') when displaying the bookmarks"));
        proof {
            lemma_schema_entries_pointwise(entries@, styles_schema());
        }
        Schema { entries }
    }

    /// An instance holding every field's compiled-in default.
    pub fn default() -> (r: StyleSettings)
        ensures
            r.warning_style@ == "'yellow, italic'"@,
            r.error_style@ == "'red, bold'"@,
            r.stack_number_style@ == "'default'"@,
            r.stack_separator_style@ == "'cyan'"@,
            r.stack_path_style@ == "'default'"@,
            r.stack_punct_style@ == "'magenta'"@,
            r.stack_invalid_style@ == "'default, strikethrough'"@,
            r.bookmarks_name_style@ == "'default'"@,
            r.bookmarks_seperator_style@ == "'cyan'"@,
            r.bookmarks_path_style@ == "'default'"@,
            r.bookmarks_punct_style@ == "'magenta'"@,
            r.bookmarks_invalid_style@ == "'strikethrough'"@,
            styles_record(r) == default_record_model(styles_schema()),
    {
        let r = StyleSettings {
            warning_style: String::from_str("'yellow, italic'"),
            error_style: String::from_str("'red, bold'"),
            stack_number_style: String::from_str("'default'"),
            stack_separator_style: String::from_str("'cyan'"),
            stack_path_style: String::from_str("'default'"),
            stack_punct_style: String::from_str("'magenta'"),
            stack_invalid_style: String::from_str("'default, strikethrough'"),
            bookmarks_name_style: String::from_str("'default'"),
            bookmarks_seperator_style: String::from_str("'cyan'"),
            bookmarks_path_style: String::from_str("'default'"),
            bookmarks_punct_style: String::from_str("'magenta'"),
            bookmarks_invalid_style: String::from_str("'strikethrough'"),
        };
        proof {
            crate::schema::lemma_default_record_model_len(styles_schema());
            assert forall|i: int| 0 <= i < styles_schema().len() implies default_record_model(
                styles_schema(),
            )[i] == styles_record(r)[i] by {
                crate::schema::lemma_default_record_model_index(styles_schema(), i);
            }
            assert(styles_record(r) =~= default_record_model(styles_schema()));
        }
        r
    }

    /// The record carrying this structure's values.
    pub fn to_record(&self) -> (r: Record)
        ensures
            r@ == styles_record(*self),
    {
        let mut values: Vec<RecordValue> = Vec::new();
        values.push(RecordValue::Value(FieldValue::Text(self.warning_style.clone())));
        values.push(RecordValue::Value(FieldValue::Text(self.error_style.clone())));
        values.push(RecordValue::Value(FieldValue::Text(self.stack_number_style.clone())));
        values.push(RecordValue::Value(FieldValue::Text(self.stack_separator_style.clone())));
        values.push(RecordValue::Value(FieldValue::Text(self.stack_path_style.clone())));
        values.push(RecordValue::Value(FieldValue::Text(self.stack_punct_style.clone())));
        values.push(RecordValue::Value(FieldValue::Text(self.stack_invalid_style.clone())));
        values.push(RecordValue::Value(FieldValue::Text(self.bookmarks_name_style.clone())));
        values.push(RecordValue::Value(FieldValue::Text(self.bookmarks_seperator_style.clone())));
        values.push(RecordValue::Value(FieldValue::Text(self.bookmarks_path_style.clone())));
        values.push(RecordValue::Value(FieldValue::Text(self.bookmarks_punct_style.clone())));
        values.push(RecordValue::Value(FieldValue::Text(self.bookmarks_invalid_style.clone())));
        proof {
            lemma_values_pointwise(values@, styles_record(*self));
        }
        Record { values }
    }

    /// Reads this structure's values back out of a record.
    pub fn from_record(r: &Record) -> (s: StyleSettings)
        requires
            record_matches(styles_schema(), r@),
        ensures
            styles_record(s) == r@,
    {
        proof {
            crate::schema::lemma_record_values_model_len(r.values@);
            assert forall|i: int| 0 <= i < 12 implies record_slot_matches(
                #[trigger] styles_schema()[i],
                r@[i],
            ) by {}
        }
        let s = StyleSettings {
            warning_style: read_text(r, 0),
            error_style: read_text(r, 1),
            stack_number_style: read_text(r, 2),
            stack_separator_style: read_text(r, 3),
            stack_path_style: read_text(r, 4),
            stack_punct_style: read_text(r, 5),
            stack_invalid_style: read_text(r, 6),
            bookmarks_name_style: read_text(r, 7),
            bookmarks_seperator_style: read_text(r, 8),
            bookmarks_path_style: read_text(r, 9),
            bookmarks_punct_style: read_text(r, 10),
            bookmarks_invalid_style: read_text(r, 11),
        };
        proof {
            assert(styles_record(s) =~= r@);
        }
        s
    }

    /// Tries to parse configuration text into this structure.
    pub fn parse_from_string(&mut self, input: &String) -> (msgs: Vec<String>)
        ensures
            ({
                let st = parse_text_model(input@);
                let b = bind_record_model(styles_schema(), styles_record(*old(self)), st.tree);
                styles_record(*final(self)) == b.0 && msgs@.map_values(|m: String| m@) == st.msgs
                    + b.1
            }),
    {
        let parsed = parse_config_file(input);
        let mut msgs = parsed.1;
        let ghost parse_msgs = msgs@.map_values(|m: String| m@);
        let mut bind_msgs = self.parse_from_map(parsed.0);
        let ghost bound_msgs = bind_msgs@.map_values(|m: String| m@);
        msgs.append(&mut bind_msgs);
        proof {
            assert(msgs@.map_values(|m: String| m@) =~= parse_msgs + bound_msgs);
        }
        msgs
    }

    /// Binds one table of the tree onto this structure, consuming it.
    pub fn parse_from_map(&mut self, input: ConfigMap) -> (msgs: Vec<String>)
        ensures
            ({
                let b = bind_record_model(styles_schema(), styles_record(*old(self)), input@);
                styles_record(*final(self)) == b.0 && msgs@.map_values(|m: String| m@) == b.1
            }),
    {
        let schema = Self::schema();
        let rec = self.to_record();
        proof {
            lemma_styles_matches(*self);
        }
        let bound = bind_record(&schema, rec, input);
        *self = Self::from_record(&bound.0);
        bound.1
    }

    /// Compiles every field into ANSI escape sequences; a field whose
    /// descriptor does not compile keeps its raw descriptor and
    /// contributes one diagnostic.
    pub fn to_ansi_sequences(&mut self) -> (msgs: Vec<String>)
        ensures
            ({
                let b = apply_styles_model(styles_schema(), styles_record(*old(self)));
                styles_record(*final(self)) == b.0 && msgs@.map_values(|m: String| m@) == b.1
            }),
    {
        let schema = Self::schema();
        let rec = self.to_record();
        proof {
            lemma_styles_matches(*self);
        }
        let styled = apply_styles(&schema, rec);
        *self = Self::from_record(&styled.0);
        styled.1
    }

    /// Serializes this structure as a top-level settings listing.
    pub fn to_string(&self) -> (r: String)
        ensures
            r@ == serialize_model(styles_schema(), styles_record(*self), ""@),
    {
        let schema = Self::schema();
        let rec = self.to_record();
        proof {
            lemma_styles_matches(*self);
        }
        serialize_record(&schema, &rec, "")
    }

    /// Serializes this structure as the body of a nested section.
    pub fn to_string_nested(&self, parents: &String) -> (r: String)
        ensures
            r@ == serialize_model(styles_schema(), styles_record(*self), parents@),
    {
        let schema = Self::schema();
        let rec = self.to_record();
        proof {
            lemma_styles_matches(*self);
        }
        serialize_record(&schema, &rec, parents.as_str())
    }
}

/// The tool's whole configuration: three nested sections.
pub struct Config {
    pub general: GeneralSettings,
    pub format: FormatSettings,
    pub styles: StyleSettings,
}

/// The schema of [`Config`]: three named sections.
pub open spec fn config_schema() -> Seq<SchemaEntryModel> {
    seq![
        SchemaEntryModel::Section("general"@, general_schema()),
        SchemaEntryModel::Section("format"@, format_schema()),
        SchemaEntryModel::Section("styles"@, styles_schema()),
    ]
}

/// The record a [`Config`] value stands for.
pub open spec fn config_record(c: Config) -> Seq<RecordValueModel> {
    seq![
        RecordValueModel::Table(general_record(c.general)),
        RecordValueModel::Table(format_record(c.format)),
        RecordValueModel::Table(styles_record(c.styles)),
    ]
}

/// A [`Config`] record is always shaped like its schema.
pub proof fn lemma_config_matches(c: Config)
    ensures
        record_matches(config_schema(), config_record(c)),
{
    lemma_general_matches(c.general);
    lemma_format_matches(c.format);
    lemma_styles_matches(c.styles);
    assert forall|i: int| 0 <= i < config_schema().len() implies record_slot_matches(
        #[trigger] config_schema()[i],
        config_record(c)[i],
    ) by {
    }
}

impl Config {
    /// The explicit schema registry entry for the whole configuration.
    pub fn schema() -> (r: Schema)
        ensures
            r@ == config_schema(),
    {
        let mut entries: Vec<SchemaEntry> = Vec::new();
        entries.push(SchemaEntry::Section("general".to_owned(), GeneralSettings::schema()));
        entries.push(SchemaEntry::Section("format".to_owned(), FormatSettings::schema()));
        entries.push(SchemaEntry::Section("styles".to_owned(), StyleSettings::schema()));
        proof {
            lemma_schema_entries_pointwise(entries@, config_schema());
        }
        Schema { entries }
    }

    /// An instance holding every field's compiled-in default.
    pub fn default() -> (r: Config)
        ensures
            general_record(r.general) == default_record_model(general_schema()),
            format_record(r.format) == default_record_model(format_schema()),
            styles_record(r.styles) == default_record_model(styles_schema()),
            config_record(r) == default_record_model(config_schema()),
    {
        let r = Config {
            general: GeneralSettings::default(),
            format: FormatSettings::default(),
            styles: StyleSettings::default(),
        };
        proof {
            crate::schema::lemma_default_record_model_len(config_schema());
            assert forall|i: int| 0 <= i < config_schema().len() implies default_record_model(
                config_schema(),
            )[i] == config_record(r)[i] by {
                crate::schema::lemma_default_record_model_index(config_schema(), i);
            }
            assert(config_record(r) =~= default_record_model(config_schema()));
        }
        r
    }

    /// The record carrying the whole configuration's values.
    pub fn to_record(&self) -> (r: Record)
        ensures
            r@ == config_record(*self),
    {
        let mut values: Vec<RecordValue> = Vec::new();
        values.push(RecordValue::Table(self.general.to_record()));
        values.push(RecordValue::Table(self.format.to_record()));
        values.push(RecordValue::Table(self.styles.to_record()));
        proof {
            lemma_values_pointwise(values@, config_record(*self));
        }
        Record { values }
    }

    /// Reads the whole configuration back out of a record.
    pub fn from_record(r: &Record) -> (c: Config)
        requires
            record_matches(config_schema(), r@),
        ensures
            config_record(c) == r@,
    {
        proof {
            crate::schema::lemma_record_values_model_len(r.values@);
            assert forall|i: int| 0 <= i < 3 implies record_slot_matches(
                #[trigger] config_schema()[i],
                r@[i],
            ) by {}
        }
        let c = Config {
            general: GeneralSettings::from_record(read_table(r, 0)),
            format: FormatSettings::from_record(read_table(r, 1)),
            styles: StyleSettings::from_record(read_table(r, 2)),
        };
        proof {
            assert(config_record(c) =~= r@);
        }
        c
    }

    /// Tries to parse configuration text into the whole configuration:
    /// parsing and binding diagnostics come back in one ordered list,
    /// empty exactly when everything was recognised.
    pub fn parse_from_string(&mut self, input: &String) -> (msgs: Vec<String>)
        ensures
            ({
                let st = parse_text_model(input@);
                let b = bind_record_model(config_schema(), config_record(*old(self)), st.tree);
                config_record(*final(self)) == b.0 && msgs@.map_values(|m: String| m@) == st.msgs
                    + b.1
            }),
    {
        let parsed = parse_config_file(input);
        let mut msgs = parsed.1;
        let ghost parse_msgs = msgs@.map_values(|m: String| m@);
        let mut bind_msgs = self.parse_from_map(parsed.0);
        let ghost bound_msgs = bind_msgs@.map_values(|m: String| m@);
        msgs.append(&mut bind_msgs);
        proof {
            assert(msgs@.map_values(|m: String| m@) =~= parse_msgs + bound_msgs);
        }
        msgs
    }

    /// Binds the top level of a table tree onto the configuration.
    pub fn parse_from_map(&mut self, input: ConfigMap) -> (msgs: Vec<String>)
        ensures
            ({
                let b = bind_record_model(config_schema(), config_record(*old(self)), input@);
                config_record(*final(self)) == b.0 && msgs@.map_values(|m: String| m@) == b.1
            }),
    {
        let schema = Self::schema();
        let rec = self.to_record();
        proof {
            lemma_config_matches(*self);
        }
        let bound = bind_record(&schema, rec, input);
        *self = Self::from_record(&bound.0);
        bound.1
    }

    /// Compiles every style-flagged field of the configuration into ANSI
    /// escape sequences; fields whose descriptors do not compile keep
    /// their raw descriptors, one diagnostic each.
    pub fn to_ansi_sequences(&mut self) -> (msgs: Vec<String>)
        ensures
            ({
                let b = apply_styles_model(config_schema(), config_record(*old(self)));
                config_record(*final(self)) == b.0 && msgs@.map_values(|m: String| m@) == b.1
            }),
    {
        let schema = Self::schema();
        let rec = self.to_record();
        proof {
            lemma_config_matches(*self);
        }
        let styled = apply_styles(&schema, rec);
        *self = Self::from_record(&styled.0);
        styled.1
    }

    /// Serializes the whole configuration: one `[section]` header per
    /// nested structure and one commented `key = value` line per field.
    pub fn to_string(&self) -> (r: String)
        ensures
            r@ == serialize_model(config_schema(), config_record(*self), ""@),
    {
        let schema = Self::schema();
        let rec = self.to_record();
        proof {
            lemma_config_matches(*self);
        }
        serialize_record(&schema, &rec, "")
    }

    /// Serializes the configuration as the body of a nested section.
    pub fn to_string_nested(&self, parents: &String) -> (r: String)
        ensures
            r@ == serialize_model(config_schema(), config_record(*self), parents@),
    {
        let schema = Self::schema();
        let rec = self.to_record();
        proof {
            lemma_config_matches(*self);
        }
        serialize_record(&schema, &rec, parents.as_str())
    }

    /// Formats the configuration to a readable string: its serialized
    /// settings listing.
    pub fn to_formatted_string(&self) -> (r: String)
        ensures
            r@ == serialize_model(config_schema(), config_record(*self), ""@),
    {
        self.to_string()
    }
}

/// Reads the nested record in slot `i` of a record.
fn read_table(r: &Record, i: usize) -> (t: &Record)
    requires
        i < r@.len(),
        r@[i as int] is Table,
    ensures
        r@[i as int] == RecordValueModel::Table(t@),
{
    proof {
        crate::schema::lemma_record_values_model_len(r.values@);
        crate::schema::lemma_record_values_model_index(r.values@, i as int);
    }
    match &r.values[i] {
        RecordValue::Table(t) => t,
        RecordValue::Value(_) => {
            proof {
                assert(false);
            }
            unreached()
        },
    }
}

/// The schema of [`GeneralSettings`] survives one serialize/parse trip:
/// flat, safe keys, comment lines without breaks, distinct names.
pub proof fn lemma_general_schema_safe()
    ensures
        crate::schema::safe_flat_schema(general_schema()),
{
    reveal_strlit("dedup_stack");
    reveal_strlit("rotate_stack_on_jump_to_entry");
    reveal_strlit("show_stack_on_push");
    reveal_strlit("show_stack_on_pop");
    reveal_strlit("show_invalid_stack_entries");
    reveal_strlit("show_entries_on_bookmark");
    reveal_strlit("show_invalid_bookmarks");
    reveal_strlit("cleanup_bookmarks");
    reveal_strlit(" (bool) delete all older occurences of paths in the stack");
    reveal_strlit(" (bool) rotate stack to chosen path when jumping to stack entry");
    reveal_strlit(" (bool) show stack when pushing a path to the stack");
    reveal_strlit(" (bool) show stack when popping a stack entry");
    reveal_strlit(" (bool) show invalid stack entries");
    reveal_strlit(" (bool) show bookmarks when adding, removing or changing to a bookmark");
    reveal_strlit(" (bool) show invalid bookmarks when displaying bookmarks");
    reveal_strlit(" (bool) remove invalid bookmarks on call");
    let s = general_schema();
    assert forall|i: int| 0 <= i < s.len() implies (#[trigger] s[i]) is Scalar by {}
    assert forall|i: int|
        0 <= i < s.len() implies match #[trigger] s[i] {
        SchemaEntryModel::Scalar(d) => crate::tree::safe_key(d.name) && (match d.comment {
            Some(c) => !crate::text::contains_char(c, '\n'),
            None => true,
        }),
        SchemaEntryModel::Section(_, _) => true,
    } by {}
    assert forall|i: int|
        0 <= i < s.len() implies match #[trigger] s[i] {
        SchemaEntryModel::Scalar(d) => !d.no_config,
        SchemaEntryModel::Section(_, _) => false,
    } by {}
    crate::schema::lemma_level_names_all_scalars(s);
    assert forall|i: int, j: int|
        0 <= i < j < crate::schema::level_names(s).len() implies crate::schema::level_names(s)[i]
        != crate::schema::level_names(s)[j] by {
        assert(crate::schema::level_names(s)[i] == crate::schema::section_name(s[i]));
        assert(crate::schema::level_names(s)[j] == crate::schema::section_name(s[j]));
        let a = crate::schema::section_name(s[i]);
        let b = crate::schema::section_name(s[j]);
        if a.len() == b.len() {
            assert(a[0] != b[0] || a[10] != b[10]);
        }
    }
}

/// The schema of [`FormatSettings`] survives one serialize/parse trip.
pub proof fn lemma_format_schema_safe()
    ensures
        crate::schema::safe_flat_schema(format_schema()),
{
    reveal_strlit("align_separators");
    reveal_strlit("show_home_as_tilde");
    reveal_strlit("stack_hide_numbers");
    reveal_strlit("stack_separator");
    reveal_strlit("bookmarks_separator");
    reveal_strlit(" (bool) add padding before the separator if true, after if false");
    reveal_strlit(" (bool) hide numbers when displaying the stack");
    reveal_strlit(" (bool) replace home directory path with '~' when displaying the stack or bookmarks");
    reveal_strlit(" (string) separator between bookmark names and paths");
    reveal_strlit(" (string) separator between stack numbers and paths");
    let s = format_schema();
    assert forall|i: int| 0 <= i < s.len() implies (#[trigger] s[i]) is Scalar by {}
    assert forall|i: int|
        0 <= i < s.len() implies match #[trigger] s[i] {
        SchemaEntryModel::Scalar(d) => crate::tree::safe_key(d.name) && (match d.comment {
            Some(c) => !crate::text::contains_char(c, '\n'),
            None => true,
        }),
        SchemaEntryModel::Section(_, _) => true,
    } by {}
    assert forall|i: int|
        0 <= i < s.len() implies match #[trigger] s[i] {
        SchemaEntryModel::Scalar(d) => !d.no_config,
        SchemaEntryModel::Section(_, _) => false,
    } by {}
    crate::schema::lemma_level_names_all_scalars(s);
    assert forall|i: int, j: int|
        0 <= i < j < crate::schema::level_names(s).len() implies crate::schema::level_names(s)[i]
        != crate::schema::level_names(s)[j] by {
        assert(crate::schema::level_names(s)[i] == crate::schema::section_name(s[i]));
        assert(crate::schema::level_names(s)[j] == crate::schema::section_name(s[j]));
        let a = crate::schema::section_name(s[i]);
        let b = crate::schema::section_name(s[j]);
        if a.len() == b.len() {
            assert(a[0] != b[0] || a[10] != b[10]);
        }
    }
}

/// The schema of [`StyleSettings`] survives one serialize/parse trip.
pub proof fn lemma_styles_schema_safe()
    ensures
        crate::schema::safe_flat_schema(styles_schema()),
{
    reveal_strlit("warning_style");
    reveal_strlit("error_style");
    reveal_strlit("stack_number_style");
    reveal_strlit("stack_separator_style");
    reveal_strlit("stack_path_style");
    reveal_strlit("stack_punct_style");
    reveal_strlit("stack_invalid_style");
    reveal_strlit("bookmarks_name_style");
    reveal_strlit("bookmarks_seperator_style");
    reveal_strlit("bookmarks_path_style");
    reveal_strlit("bookmarks_punct_style");
    reveal_strlit("bookmarks_invalid_style");
    reveal_strlit(" (string) style applied to bookmark names when displaying the bookmarks");
    reveal_strlit(" (string) style applied to errors");
    reveal_strlit(" (string) style applied to numbers when displaying the stack");
    reveal_strlit(" (string) style applied to paths when displaying the bookmarks");
    reveal_strlit(" (string) style applied to paths when displaying the stack");
    reveal_strlit(" (string) style applied to punctuation (i.e. '/') when displaying the bookmarks");
    reveal_strlit(" (string) style applied to punctuation (i.e. '/') when displaying the stack");
    reveal_strlit(" (string) style applied to separators when displaying the bookmarks");
    reveal_strlit(" (string) style applied to separators when displaying the stack");
    reveal_strlit(" (string) style applied to warnings");
    let s = styles_schema();
    assert forall|i: int| 0 <= i < s.len() implies (#[trigger] s[i]) is Scalar by {}
    assert forall|i: int|
        0 <= i < s.len() implies match #[trigger] s[i] {
        SchemaEntryModel::Scalar(d) => crate::tree::safe_key(d.name) && (match d.comment {
            Some(c) => !crate::text::contains_char(c, '\n'),
            None => true,
        }),
        SchemaEntryModel::Section(_, _) => true,
    } by {}
    assert forall|i: int|
        0 <= i < s.len() implies match #[trigger] s[i] {
        SchemaEntryModel::Scalar(d) => !d.no_config,
        SchemaEntryModel::Section(_, _) => false,
    } by {}
    crate::schema::lemma_level_names_all_scalars(s);
    assert forall|i: int, j: int|
        0 <= i < j < crate::schema::level_names(s).len() implies crate::schema::level_names(s)[i]
        != crate::schema::level_names(s)[j] by {
        assert(crate::schema::level_names(s)[i] == crate::schema::section_name(s[i]));
        assert(crate::schema::level_names(s)[j] == crate::schema::section_name(s[j]));
        let a = crate::schema::section_name(s[i]);
        let b = crate::schema::section_name(s[j]);
        if a.len() == b.len() {
            assert(a[0] != b[0] || a[10] != b[10]);
        }
    }
}

/// The whole configuration's schema survives one serialize/parse trip:
/// three safely-named sections, each a safe flat schema.
pub proof fn lemma_config_schema_safe()
    ensures
        crate::schema::safe_sectioned_schema(config_schema()),
{
    reveal_strlit("general");
    reveal_strlit("format");
    reveal_strlit("styles");
    lemma_general_schema_safe();
    lemma_format_schema_safe();
    lemma_styles_schema_safe();
    let s = config_schema();
    assert forall|i: int| 0 <= i < s.len() implies (#[trigger] s[i]) is Section by {}
    assert forall|i: int|
        0 <= i < s.len() implies match #[trigger] s[i] {
        SchemaEntryModel::Section(name, sub) => crate::tree::safe_section_name(name)
            && crate::schema::safe_flat_schema(sub),
        SchemaEntryModel::Scalar(_) => true,
    } by {}
    crate::schema::lemma_level_names_sections(s);
    assert forall|i: int, j: int|
        0 <= i < j < crate::schema::level_names(s).len() implies crate::schema::level_names(s)[i]
        != crate::schema::level_names(s)[j] by {
        assert(crate::schema::level_names(s)[i] == crate::schema::section_name(s[i]));
        assert(crate::schema::level_names(s)[j] == crate::schema::section_name(s[j]));
    }
}

/// Law: the serialize/parse/bind round trip for the configuration
/// itself. Serializing a fully-populated configuration whose text fields
/// are safe values, parsing the text back, and binding the parsed tree
/// against the configuration schema starting from any configuration
/// yields exactly the serialized one, with no diagnostics at either
/// stage.
pub proof fn lemma_config_round_trip(start: Config, c: Config)
    requires
        crate::tree::safe_value(c.format.stack_separator@),
        crate::tree::safe_value(c.format.bookmarks_separator@),
        crate::tree::safe_value(c.styles.warning_style@),
        crate::tree::safe_value(c.styles.error_style@),
        crate::tree::safe_value(c.styles.stack_number_style@),
        crate::tree::safe_value(c.styles.stack_separator_style@),
        crate::tree::safe_value(c.styles.stack_path_style@),
        crate::tree::safe_value(c.styles.stack_punct_style@),
        crate::tree::safe_value(c.styles.stack_invalid_style@),
        crate::tree::safe_value(c.styles.bookmarks_name_style@),
        crate::tree::safe_value(c.styles.bookmarks_seperator_style@),
        crate::tree::safe_value(c.styles.bookmarks_path_style@),
        crate::tree::safe_value(c.styles.bookmarks_punct_style@),
        crate::tree::safe_value(c.styles.bookmarks_invalid_style@),
    ensures
        parse_text_model(
            crate::schema::serialize_model(config_schema(), config_record(c), ""@),
        ).msgs == Seq::<Seq<char>>::empty(),
        crate::schema::bind_record_model(
            config_schema(),
            config_record(start),
            parse_text_model(
                crate::schema::serialize_model(config_schema(), config_record(c), ""@),
            ).tree,
        ).0 == config_record(c),
        crate::schema::bind_record_model(
            config_schema(),
            config_record(start),
            parse_text_model(
                crate::schema::serialize_model(config_schema(), config_record(c), ""@),
            ).tree,
        ).1 == Seq::<Seq<char>>::empty(),
{
    lemma_config_schema_safe();
    lemma_config_matches(start);
    lemma_config_matches(c);
    let s = config_schema();
    let r = config_record(c);
    assert forall|i: int|
        0 <= i < s.len() implies match #[trigger] s[i] {
        SchemaEntryModel::Section(_, sub) => crate::schema::safe_flat_record(
            sub,
            crate::schema::table_of_slot(r[i]),
        ),
        SchemaEntryModel::Scalar(_) => true,
    } by {
        if i == 0 {
            assert(crate::schema::table_of_slot(r[0]) == general_record(c.general));
            assert forall|k: int|
                0 <= k < general_schema().len() implies match #[trigger] general_schema()[k] {
                SchemaEntryModel::Scalar(d) => d.no_config || (match general_record(c.general)[k] {
                    RecordValueModel::Value(FieldValueModel::Text(t)) => crate::tree::safe_value(
                        t,
                    ),
                    _ => true,
                }),
                SchemaEntryModel::Section(_, _) => true,
            } by {}
        } else if i == 1 {
            assert(crate::schema::table_of_slot(r[1]) == format_record(c.format));
            assert forall|k: int|
                0 <= k < format_schema().len() implies match #[trigger] format_schema()[k] {
                SchemaEntryModel::Scalar(d) => d.no_config || (match format_record(c.format)[k] {
                    RecordValueModel::Value(FieldValueModel::Text(t)) => crate::tree::safe_value(
                        t,
                    ),
                    _ => true,
                }),
                SchemaEntryModel::Section(_, _) => true,
            } by {}
        } else {
            assert(crate::schema::table_of_slot(r[2]) == styles_record(c.styles));
            assert forall|k: int|
                0 <= k < styles_schema().len() implies match #[trigger] styles_schema()[k] {
                SchemaEntryModel::Scalar(d) => d.no_config || (match styles_record(c.styles)[k] {
                    RecordValueModel::Value(FieldValueModel::Text(t)) => crate::tree::safe_value(
                        t,
                    ),
                    _ => true,
                }),
                SchemaEntryModel::Section(_, _) => true,
            } by {}
        }
    }
    assert(crate::schema::agrees_on_no_config(s, config_record(start), r)) by {
        assert forall|i: int|
            0 <= i < s.len() implies match #[trigger] s[i] {
            SchemaEntryModel::Scalar(d) => d.no_config ==> config_record(start)[i] == r[i],
            SchemaEntryModel::Section(_, sub) => crate::schema::agrees_on_no_config(
                sub,
                crate::schema::table_of_slot(config_record(start)[i]),
                crate::schema::table_of_slot(r[i]),
            ),
        } by {
            match s[i] {
                SchemaEntryModel::Section(_, sub) => {
                    assert forall|k: int|
                        0 <= k < sub.len() implies match #[trigger] sub[k] {
                        SchemaEntryModel::Scalar(d) => !d.no_config,
                        SchemaEntryModel::Section(_, _) => true,
                    } by {}
                },
                SchemaEntryModel::Scalar(_) => {},
            }
        }
    }
    crate::schema::lemma_round_trip_sectioned(s, config_record(start), r);
}

/// Reads the boolean in slot `i` of a record.
fn read_bool(r: &Record, i: usize) -> (b: bool)
    requires
        i < r@.len(),
        r@[i as int] is Value && r@[i as int]->Value_0 is Boolean,
    ensures
        r@[i as int] == RecordValueModel::Value(FieldValueModel::Boolean(b)),
{
    proof {
        crate::schema::lemma_record_values_model_len(r.values@);
        crate::schema::lemma_record_values_model_index(r.values@, i as int);
    }
    match &r.values[i] {
        RecordValue::Value(FieldValue::Boolean(b)) => *b,
        _ => {
            proof {
                assert(false);
            }
            false
        },
    }
}

/// Reads the text in slot `i` of a record.
fn read_text(r: &Record, i: usize) -> (t: String)
    requires
        i < r@.len(),
        r@[i as int] is Value && r@[i as int]->Value_0 is Text,
    ensures
        r@[i as int] == RecordValueModel::Value(FieldValueModel::Text(t@)),
{
    proof {
        crate::schema::lemma_record_values_model_len(r.values@);
        crate::schema::lemma_record_values_model_index(r.values@, i as int);
    }
    match &r.values[i] {
        RecordValue::Value(FieldValue::Text(t)) => t.clone(),
        _ => {
            proof {
                assert(false);
            }
            String::new()
        },
    }
}

} // verus!
