//! The declarative binding engine: an explicit schema registry and the
//! generic schema walk that binds a parsed table tree onto it.
//!
//! A [`Schema`] lists, in declaration order, the fields of one settings
//! structure: scalar fields (with a name, a typed default, and the
//! `style` / `no_config` modifiers) and named sub-sections, each carrying
//! its own schema. A [`Record`] holds the values of one structure, shaped
//! like its schema. Binding consumes matched keys from the table tree,
//! parses each found value into the field's type, leaves defaults where a
//! key is missing or unparseable, recurses into sub-sections, and
//! accumulates human-readable diagnostics instead of stopping; whatever
//! keys remain unmatched are reported in one aggregated message.

use vstd::prelude::*;

use crate::format::{compiled_style, parse_style, style_tokens, StyleError};
use crate::text::{join_strings, join_with, push_char, str_eq_str};
use crate::tree::{
    find_key, has_key, key_value, lemma_find_key_bounds, lemma_parse_comment_line,
    lemma_parse_kv_line, parse_line_model, parse_lines_model, parse_text_model, remove_key,
    safe_key, safe_value, ConfigElement, ConfigMap, ElemModel, EntryModel, ParseState,
};

verus! {

/// The value of one scalar field: the two target types the binder parses.
pub enum FieldValue {
    Boolean(bool),
    Text(String),
}

/// Registration-time description of one scalar field.
pub struct FieldDef {
    /// The key looked up in the table tree.
    pub name: String,
    /// The compiled-in default, which also fixes the field's type.
    pub default: FieldValue,
    /// Whether the bound value is a style descriptor to compile.
    pub style: bool,
    /// Whether the field is excluded from binding and serialization.
    pub no_config: bool,
    /// An optional documentation line written above the serialized field.
    pub comment: Option<String>,
}

/// One schema entry: a scalar field or a named nested section.
pub enum SchemaEntry {
    Scalar(FieldDef),
    Section(String, Schema),
}

/// The ordered field list of one settings structure.
pub struct Schema {
    pub entries: Vec<SchemaEntry>,
}

/// The value of one record slot: a scalar value or a nested record.
pub enum RecordValue {
    Value(FieldValue),
    Table(Record),
}

/// The values of one settings structure, shaped like its schema.
pub struct Record {
    pub values: Vec<RecordValue>,
}

/// Model of a scalar field value.
pub enum FieldValueModel {
    Boolean(bool),
    Text(Seq<char>),
}

/// Model of a scalar field description.
pub struct FieldDefModel {
    pub name: Seq<char>,
    pub default: FieldValueModel,
    pub style: bool,
    pub no_config: bool,
    pub comment: Option<Seq<char>>,
}

/// Model of one schema entry.
pub enum SchemaEntryModel {
    Scalar(FieldDefModel),
    Section(Seq<char>, Seq<SchemaEntryModel>),
}

/// Model of one record slot.
pub enum RecordValueModel {
    Value(FieldValueModel),
    Table(Seq<RecordValueModel>),
}

/// The model of a scalar field value.
pub open spec fn field_value_model(v: FieldValue) -> FieldValueModel {
    match v {
        FieldValue::Boolean(b) => FieldValueModel::Boolean(b),
        FieldValue::Text(t) => FieldValueModel::Text(t@),
    }
}

/// The model of an optional comment.
pub open spec fn comment_model(c: Option<String>) -> Option<Seq<char>> {
    match c {
        Some(t) => Some(t@),
        None => None,
    }
}

/// The model of a scalar field description.
pub open spec fn field_def_model(d: FieldDef) -> FieldDefModel {
    FieldDefModel {
        name: d.name@,
        default: field_value_model(d.default),
        style: d.style,
        no_config: d.no_config,
        comment: comment_model(d.comment),
    }
}

/// The model of a sequence of schema entries.
pub open spec fn schema_entries_model(s: Seq<SchemaEntry>) -> Seq<SchemaEntryModel>
    decreases s,
{
    if s.len() == 0 {
        Seq::<SchemaEntryModel>::empty()
    } else {
        seq![schema_entry_model(s[0])] + schema_entries_model(s.drop_first())
    }
}

/// The model of one schema entry.
pub open spec fn schema_entry_model(e: SchemaEntry) -> SchemaEntryModel
    decreases e,
{
    match e {
        SchemaEntry::Scalar(d) => SchemaEntryModel::Scalar(field_def_model(d)),
        SchemaEntry::Section(name, sub) => SchemaEntryModel::Section(
            name@,
            schema_entries_model(sub.entries@),
        ),
    }
}

/// The model of a sequence of record slots.
pub open spec fn record_values_model(s: Seq<RecordValue>) -> Seq<RecordValueModel>
    decreases s,
{
    if s.len() == 0 {
        Seq::<RecordValueModel>::empty()
    } else {
        seq![record_value_model(s[0])] + record_values_model(s.drop_first())
    }
}

/// The model of one record slot.
pub open spec fn record_value_model(v: RecordValue) -> RecordValueModel
    decreases v,
{
    match v {
        RecordValue::Value(fv) => RecordValueModel::Value(field_value_model(fv)),
        RecordValue::Table(r) => RecordValueModel::Table(record_values_model(r.values@)),
    }
}

impl View for Schema {
    type V = Seq<SchemaEntryModel>;

    open spec fn view(&self) -> Seq<SchemaEntryModel> {
        schema_entries_model(self.entries@)
    }
}

impl View for Record {
    type V = Seq<RecordValueModel>;

    open spec fn view(&self) -> Seq<RecordValueModel> {
        record_values_model(self.values@)
    }
}

pub broadcast proof fn lemma_schema_entries_model_len(s: Seq<SchemaEntry>)
    ensures
        (#[trigger] schema_entries_model(s)).len() == s.len(),
    decreases s,
{
    if s.len() > 0 {
        lemma_schema_entries_model_len(s.drop_first());
    }
}

pub broadcast proof fn lemma_schema_entries_model_index(s: Seq<SchemaEntry>, i: int)
    requires
        0 <= i < s.len(),
    ensures
        #[trigger] schema_entries_model(s)[i] == schema_entry_model(s[i]),
    decreases s,
{
    lemma_schema_entries_model_len(s);
    if i > 0 {
        lemma_schema_entries_model_index(s.drop_first(), i - 1);
    }
}

pub broadcast proof fn lemma_record_values_model_len(s: Seq<RecordValue>)
    ensures
        (#[trigger] record_values_model(s)).len() == s.len(),
    decreases s,
{
    if s.len() > 0 {
        lemma_record_values_model_len(s.drop_first());
    }
}

pub broadcast proof fn lemma_record_values_model_index(s: Seq<RecordValue>, i: int)
    requires
        0 <= i < s.len(),
    ensures
        #[trigger] record_values_model(s)[i] == record_value_model(s[i]),
    decreases s,
{
    lemma_record_values_model_len(s);
    if i > 0 {
        lemma_record_values_model_index(s.drop_first(), i - 1);
    }
}

/// Whether two scalar values have the same target type.
pub open spec fn same_kind(a: FieldValueModel, b: FieldValueModel) -> bool {
    a is Boolean <==> b is Boolean
}

/// Whether a record is shaped like the schema: one slot per entry, scalar
/// slots of the field's type, one nested record per section, recursively.
pub open spec fn record_matches(s: Seq<SchemaEntryModel>, r: Seq<RecordValueModel>) -> bool
    decreases s,
{
    r.len() == s.len() && (forall|i: int|
        0 <= i < s.len() ==> record_slot_matches(#[trigger] s[i], r[i]))
}

/// Whether one record slot is shaped like one schema entry.
pub open spec fn record_slot_matches(e: SchemaEntryModel, v: RecordValueModel) -> bool
    decreases e,
{
    match e {
        SchemaEntryModel::Scalar(d) => match v {
            RecordValueModel::Value(fv) => same_kind(d.default, fv),
            RecordValueModel::Table(_) => false,
        },
        SchemaEntryModel::Section(_, sub) => match v {
            RecordValueModel::Value(_) => false,
            RecordValueModel::Table(rsub) => record_matches(sub, rsub),
        },
    }
}

/// The record that holds every field's compiled-in default.
pub open spec fn default_record_model(s: Seq<SchemaEntryModel>) -> Seq<RecordValueModel>
    decreases s,
{
    if s.len() == 0 {
        Seq::<RecordValueModel>::empty()
    } else {
        seq![default_slot_model(s[0])] + default_record_model(s.drop_first())
    }
}

/// The default value of one record slot.
pub open spec fn default_slot_model(e: SchemaEntryModel) -> RecordValueModel
    decreases e,
{
    match e {
        SchemaEntryModel::Scalar(d) => RecordValueModel::Value(d.default),
        SchemaEntryModel::Section(_, sub) => RecordValueModel::Table(default_record_model(sub)),
    }
}

pub broadcast proof fn lemma_default_record_model_len(s: Seq<SchemaEntryModel>)
    ensures
        (#[trigger] default_record_model(s)).len() == s.len(),
    decreases s,
{
    if s.len() > 0 {
        lemma_default_record_model_len(s.drop_first());
    }
}

pub broadcast proof fn lemma_default_record_model_index(s: Seq<SchemaEntryModel>, i: int)
    requires
        0 <= i < s.len(),
    ensures
        #[trigger] default_record_model(s)[i] == default_slot_model(s[i]),
    decreases s,
{
    lemma_default_record_model_len(s);
    if i > 0 {
        lemma_default_record_model_index(s.drop_first(), i - 1);
    }
}

/// The default record is always shaped like its schema.
pub proof fn lemma_default_record_matches(s: Seq<SchemaEntryModel>)
    ensures
        record_matches(s, default_record_model(s)),
    decreases s,
{
    lemma_default_record_model_len(s);
    assert forall|i: int| 0 <= i < s.len() implies record_slot_matches(
        #[trigger] s[i],
        default_record_model(s)[i],
    ) by {
        lemma_default_record_model_index(s, i);
        lemma_default_slot_matches(s[i]);
    }
}

proof fn lemma_default_slot_matches(e: SchemaEntryModel)
    ensures
        record_slot_matches(e, default_slot_model(e)),
    decreases e,
{
    match e {
        SchemaEntryModel::Scalar(_) => {},
        SchemaEntryModel::Section(_, sub) => {
            lemma_default_record_matches_inner(sub);
        },
    }
}

proof fn lemma_default_record_matches_inner(s: Seq<SchemaEntryModel>)
    ensures
        record_matches(s, default_record_model(s)),
    decreases s, 1int,
{
    lemma_default_record_model_len(s);
    assert forall|i: int| 0 <= i < s.len() implies record_slot_matches(
        #[trigger] s[i],
        default_record_model(s)[i],
    ) by {
        lemma_default_record_model_index(s, i);
        lemma_default_slot_matches_inner(s, i);
    }
}

proof fn lemma_default_slot_matches_inner(s: Seq<SchemaEntryModel>, i: int)
    requires
        0 <= i < s.len(),
    ensures
        record_slot_matches(s[i], default_slot_model(s[i])),
    decreases s, 0int,
{
    match s[i] {
        SchemaEntryModel::Scalar(_) => {},
        SchemaEntryModel::Section(_, sub) => {
            lemma_default_record_matches_inner(sub);
        },
    }
}

/// Builds the record holding every field's default value.
pub fn default_record(schema: &Schema) -> (r: Record)
    ensures
        r@ == default_record_model(schema@),
        record_matches(schema@, r@),
    decreases schema,
{
    proof {
        lemma_schema_entries_model_len(schema.entries@);
    }
    let n = schema.entries.len();
    let mut values: Vec<RecordValue> = Vec::new();
    let mut i: usize = 0;
    while i < n
        invariant
            n == schema.entries@.len(),
            0 <= i <= n,
            record_values_model(values@) == default_record_model(
                schema_entries_model(schema.entries@).take(i as int),
            ),
        decreases n - i,
    {
        proof {
            lemma_schema_entries_model_len(schema.entries@);
            lemma_schema_entries_model_index(schema.entries@, i as int);
        }
        let slot: RecordValue = match &schema.entries[i] {
            SchemaEntry::Scalar(d) => {
                let v = match &d.default {
                    FieldValue::Boolean(b) => FieldValue::Boolean(*b),
                    FieldValue::Text(t) => FieldValue::Text(t.clone()),
                };
                RecordValue::Value(v)
            },
            SchemaEntry::Section(_, sub) => {
                let r_sub = default_record(sub);
                RecordValue::Table(r_sub)
            },
        };
        let ghost old_vals = values@;
        values.push(slot);
        proof {
            let sm = schema_entries_model(schema.entries@);
            assert(values@ =~= old_vals.push(values@.last()));
            lemma_record_values_model_push(old_vals, values@.last());
            assert(record_value_model(values@.last()) == default_slot_model(sm[i as int]));
            lemma_default_record_take(sm, i as int);
        }
        i = i + 1;
    }
    proof {
        let sm = schema_entries_model(schema.entries@);
        assert(sm.take(sm.len() as int) =~= sm);
        lemma_default_record_matches(schema@);
    }
    Record { values }
}

/// Diagnostic for a scalar key missing from the configuration.
pub open spec fn msg_not_found(name: Seq<char>) -> Seq<char> {
    "could not find `"@ + name + "` in config file"@
}

/// Diagnostic for a found value that does not parse into the field's type.
pub open spec fn msg_parse_failed(name: Seq<char>) -> Seq<char> {
    "failed to parse value found for `"@ + name + "`"@
}

/// Diagnostic for a scalar field that the file defines as a table.
pub open spec fn msg_scalar_is_table(name: Seq<char>) -> Seq<char> {
    "`"@ + name + "` is a setting element, but the configuration file defines it as a nested element (Table)"@
}

/// Diagnostic for a section that the file defines as a plain setting.
pub open spec fn msg_table_is_setting(name: Seq<char>) -> Seq<char> {
    "`"@ + name + "` is defined as a nested element, but the configuration file defines it a setting element"@
}

/// Diagnostic for a section missing from the configuration.
pub open spec fn msg_no_table(name: Seq<char>) -> Seq<char> {
    "no table `"@ + name + "` found in config file"@
}

/// The keys of a table, in entry order.
pub open spec fn keys_of(m: Seq<EntryModel>) -> Seq<Seq<char>> {
    m.map_values(|e: EntryModel| e.key)
}

/// The aggregated diagnostic naming every key no field matched.
pub open spec fn msg_leftover(keys: Seq<Seq<char>>) -> Seq<char> {
    "the following settings were not recognised: ["@ + join_with(keys, ", "@) + "]"@
}

/// What binding one schema entry against one record slot does: the new
/// slot value, the table with the matched key removed, and the
/// diagnostics contributed. A `no_config` field is skipped entirely; a
/// missing key, a type mismatch and an unparseable value each leave the
/// slot at its prior value with one diagnostic; a found section binds
/// recursively, propagating the sub-diagnostics.
pub open spec fn bind_slot_model(
    e: SchemaEntryModel,
    v: RecordValueModel,
    map: Seq<EntryModel>,
) -> (RecordValueModel, Seq<EntryModel>, Seq<Seq<char>>)
    decreases e, 0int,
{
    match e {
        SchemaEntryModel::Scalar(d) => {
            if d.no_config {
                (v, map, Seq::<Seq<char>>::empty())
            } else if !has_key(map, d.name) {
                (v, map, seq![msg_not_found(d.name)])
            } else {
                let found = key_value(map, d.name);
                let map2 = remove_key(map, d.name);
                match found {
                    ElemModel::Setting(text) => match d.default {
                        FieldValueModel::Boolean(_) => {
                            if text == "true"@ {
                                (
                                    RecordValueModel::Value(FieldValueModel::Boolean(true)),
                                    map2,
                                    Seq::<Seq<char>>::empty(),
                                )
                            } else if text == "false"@ {
                                (
                                    RecordValueModel::Value(FieldValueModel::Boolean(false)),
                                    map2,
                                    Seq::<Seq<char>>::empty(),
                                )
                            } else {
                                (v, map2, seq![msg_parse_failed(d.name)])
                            }
                        },
                        FieldValueModel::Text(_) => (
                            RecordValueModel::Value(FieldValueModel::Text(text)),
                            map2,
                            Seq::<Seq<char>>::empty(),
                        ),
                    },
                    ElemModel::Nested(_) => (v, map2, seq![msg_scalar_is_table(d.name)]),
                }
            }
        },
        SchemaEntryModel::Section(name, sub) => {
            if !has_key(map, name) {
                (v, map, seq![msg_no_table(name)])
            } else {
                let found = key_value(map, name);
                let map2 = remove_key(map, name);
                match found {
                    ElemModel::Nested(submap) => {
                        let vsub = match v {
                            RecordValueModel::Table(r) => r,
                            RecordValueModel::Value(_) => Seq::<RecordValueModel>::empty(),
                        };
                        let bound = bind_record_model(sub, vsub, submap);
                        (RecordValueModel::Table(bound.0), map2, bound.1)
                    },
                    ElemModel::Setting(_) => (v, map2, seq![msg_table_is_setting(name)]),
                }
            }
        },
    }
}

/// Folds [`bind_slot_model`] over the schema entries in declaration
/// order, threading the table and concatenating the diagnostics.
pub open spec fn bind_slots_model(
    s: Seq<SchemaEntryModel>,
    r: Seq<RecordValueModel>,
    map: Seq<EntryModel>,
) -> (Seq<RecordValueModel>, Seq<EntryModel>, Seq<Seq<char>>)
    decreases s, 0int,
{
    if s.len() == 0 {
        (Seq::<RecordValueModel>::empty(), map, Seq::<Seq<char>>::empty())
    } else {
        let head = bind_slot_model(s[0], r[0], map);
        let rest = bind_slots_model(s.drop_first(), r.drop_first(), head.1);
        (seq![head.0] + rest.0, rest.1, head.2 + rest.2)
    }
}

/// Binding a whole record: all entries in order, then one aggregated
/// diagnostic for whatever keys remain unmatched at this level.
pub open spec fn bind_record_model(
    s: Seq<SchemaEntryModel>,
    r: Seq<RecordValueModel>,
    map: Seq<EntryModel>,
) -> (Seq<RecordValueModel>, Seq<Seq<char>>)
    decreases s, 1int,
{
    let bound = bind_slots_model(s, r, map);
    if bound.1.len() == 0 {
        (bound.0, bound.2)
    } else {
        (bound.0, bound.2.push(msg_leftover(keys_of(bound.1))))
    }
}

fn msg_wrap(head: &str, name: &str, tail: &str) -> (r: String)
    ensures
        r@ == head@ + name@ + tail@,
{
    let mut s = String::from_str(head);
    s.append(name);
    s.append(tail);
    s
}

proof fn lemma_record_values_model_drop_first(s: Seq<RecordValue>)
    requires
        s.len() > 0,
    ensures
        record_values_model(s.drop_first()) == record_values_model(s).drop_first(),
{
    lemma_record_values_model_len(s);
    lemma_record_values_model_len(s.drop_first());
    assert(record_values_model(s).drop_first() =~= record_values_model(s.drop_first()));
}

/// Binds the schema against the top level of a table tree.
///
/// Consumes the table destructively; what remains at the end is exactly
/// the set of unrecognised keys, reported as one aggregated diagnostic.
/// The result and diagnostics are exactly those of [`bind_record_model`];
/// every recoverable condition is a diagnostic, never a failure.
pub fn bind_record(schema: &Schema, rec: Record, map: ConfigMap) -> (r: (Record, Vec<String>))
    requires
        record_matches(schema@, rec@),
    ensures
        ({
            let b = bind_record_model(schema@, rec@, map@);
            r.0@ == b.0 && r.1@.map_values(|m: String| m@) == b.1
        }),
        record_matches(schema@, r.0@),
    decreases schema,
{
    proof {
        lemma_schema_entries_model_len(schema.entries@);
        lemma_record_values_model_len(rec.values@);
    }
    let ghost sm = schema@;
    let ghost rv0 = rec.values@;
    let ghost map0 = map@;
    let n = schema.entries.len();
    let mut values = rec.values;
    let mut m = map;
    let mut out: Vec<RecordValue> = Vec::new();
    let mut msgs: Vec<String> = Vec::new();
    let mut i: usize = 0;
    proof {
        assert(sm.skip(0) =~= sm);
        assert(record_values_model(values@) =~= record_values_model(rv0));
        assert(record_values_model(out@) =~= Seq::<RecordValueModel>::empty());
        assert(msgs@.map_values(|mm: String| mm@) =~= Seq::<Seq<char>>::empty());
    }
    while i < n
        invariant
            sm == schema@,
            n == schema.entries@.len(),
            sm.len() == n,
            0 <= i <= n,
            values@.len() == n - i,
            record_matches(sm.skip(i as int), record_values_model(values@)),
            record_values_model(out@).len() == i,
            record_matches(sm.take(i as int), record_values_model(out@)),
            ({
                let full = bind_slots_model(sm, record_values_model(rv0), map0);
                let rest = bind_slots_model(sm.skip(i as int), record_values_model(values@), m@);
                full.0 == record_values_model(out@) + rest.0 && full.1 == rest.1 && full.2
                    == msgs@.map_values(|mm: String| mm@) + rest.2
            }),
        decreases n - i,
    {
        proof {
            lemma_schema_entries_model_len(schema.entries@);
            lemma_schema_entries_model_index(schema.entries@, i as int);
            lemma_record_values_model_len(values@);
            lemma_record_values_model_index(values@, 0);
            lemma_record_values_model_drop_first(values@);
            assert(sm.skip(i as int)[0] == sm[i as int]);
            assert(sm.skip(i as int).drop_first() =~= sm.skip(i as int + 1));
            assert(record_slot_matches(sm[i as int], record_values_model(values@)[0]));
        }
        let ghost rest_vals = record_values_model(values@);
        let ghost m_before = m@;
        let v = values.remove(0);
        let ghost vm = record_value_model(v);
        proof {
            assert(vm == rest_vals[0]);
        }
        let ghost slot_result = bind_slot_model(sm[i as int], vm, m_before);
        let ghost old_out = record_values_model(out@);
        let ghost old_msgs = msgs@.map_values(|mm: String| mm@);

        let slot: RecordValue = match &schema.entries[i] {
            SchemaEntry::Scalar(d) => {
                if d.no_config {
                    v
                } else {
                    match m.remove_entry(d.name.as_str()) {
                        None => {
                            let msg = msg_wrap(
                                "could not find `",
                                d.name.as_str(),
                                "` in config file",
                            );
                            msgs.push(msg);
                            proof {
                                assert(msgs@.map_values(|mm: String| mm@) =~= old_msgs.push(
                                    msg_not_found(d.name@),
                                ));
                            }
                            v
                        },
                        Some(ConfigElement::Setting(text)) => {
                            match &d.default {
                                FieldValue::Boolean(_) => {
                                    if str_eq_str(text.as_str(), "true") {
                                        RecordValue::Value(FieldValue::Boolean(true))
                                    } else if str_eq_str(text.as_str(), "false") {
                                        RecordValue::Value(FieldValue::Boolean(false))
                                    } else {
                                        let msg = msg_wrap(
                                            "failed to parse value found for `",
                                            d.name.as_str(),
                                            "`",
                                        );
                                        msgs.push(msg);
                                        proof {
                                            assert(msgs@.map_values(|mm: String| mm@)
                                                =~= old_msgs.push(msg_parse_failed(d.name@)));
                                        }
                                        v
                                    }
                                },
                                FieldValue::Text(_) => RecordValue::Value(FieldValue::Text(text)),
                            }
                        },
                        Some(ConfigElement::Nested(_)) => {
                            let msg = msg_wrap(
                                "`",
                                d.name.as_str(),
                                "` is a setting element, but the configuration file defines it as a nested element (Table)",
                            );
                            msgs.push(msg);
                            proof {
                                assert(msgs@.map_values(|mm: String| mm@) =~= old_msgs.push(
                                    msg_scalar_is_table(d.name@),
                                ));
                            }
                            v
                        },
                    }
                }
            },
            SchemaEntry::Section(name, sub) => {
                match m.remove_entry(name.as_str()) {
                    None => {
                        let msg = msg_wrap("no table `", name.as_str(), "` found in config file");
                        msgs.push(msg);
                        proof {
                            assert(msgs@.map_values(|mm: String| mm@) =~= old_msgs.push(
                                msg_no_table(name@),
                            ));
                        }
                        v
                    },
                    Some(ConfigElement::Nested(submap)) => {
                        match v {
                            RecordValue::Table(rsub) => {
                                let bound = bind_record(sub, rsub, submap);
                                let mut sub_msgs = bound.1;
                                let ghost appended = sub_msgs@.map_values(|mm: String| mm@);
                                msgs.append(&mut sub_msgs);
                                proof {
                                    assert(msgs@.map_values(|mm: String| mm@) =~= old_msgs
                                        + appended);
                                }
                                RecordValue::Table(bound.0)
                            },
                            RecordValue::Value(fv) => {
                                proof {
                                    assert(false);
                                }
                                RecordValue::Value(fv)
                            },
                        }
                    },
                    Some(ConfigElement::Setting(_)) => {
                        let msg = msg_wrap(
                            "`",
                            name.as_str(),
                            "` is defined as a nested element, but the configuration file defines it a setting element",
                        );
                        msgs.push(msg);
                        proof {
                            assert(msgs@.map_values(|mm: String| mm@) =~= old_msgs.push(
                                msg_table_is_setting(name@),
                            ));
                        }
                        v
                    },
                }
            },
        };
        proof {
            lemma_record_values_model_push(out@, slot);
            assert(record_value_model(slot) == slot_result.0);
        }
        out.push(slot);
        proof {
            assert(record_values_model(out@) =~= old_out.push(slot_result.0));
            assert(record_slot_matches(sm[i as int], slot_result.0));
            assert(sm.take(i as int + 1) =~= sm.take(i as int).push(sm[i as int]));
            assert forall|j: int|
                0 <= j < i + 1 implies record_slot_matches(
                #[trigger] sm.take(i as int + 1)[j],
                record_values_model(out@)[j],
            ) by {
                if j < i {
                    assert(sm.take(i as int + 1)[j] == sm.take(i as int)[j]);
                    assert(record_values_model(out@)[j] == old_out[j]);
                    assert(record_slot_matches(sm.take(i as int)[j], old_out[j]));
                } else {
                    assert(sm.take(i as int + 1)[j] == sm[i as int]);
                    assert(record_values_model(out@)[j] == slot_result.0);
                }
            }
            assert(m@ == slot_result.1);
            assert(msgs@.map_values(|mm: String| mm@) =~= old_msgs + slot_result.2);
            let full = bind_slots_model(sm, record_values_model(rv0), map0);
            let rest_now = bind_slots_model(
                sm.skip(i as int + 1),
                record_values_model(values@),
                m@,
            );
            assert(old_out + (seq![slot_result.0] + rest_now.0) =~= old_out.push(slot_result.0)
                + rest_now.0);
            assert(old_msgs + (slot_result.2 + rest_now.2) =~= (old_msgs + slot_result.2)
                + rest_now.2);
            assert forall|j: int|
                0 <= j < sm.skip(i as int + 1).len() implies record_slot_matches(
                #[trigger] sm.skip(i as int + 1)[j],
                record_values_model(values@)[j],
            ) by {
                assert(sm.skip(i as int + 1)[j] == sm.skip(i as int)[j + 1]);
                assert(record_values_model(values@)[j] == rest_vals[j + 1]);
                assert(record_slot_matches(sm.skip(i as int)[j + 1], rest_vals[j + 1]));
            }
        }
        i = i + 1;
    }
    proof {
        assert(sm.skip(sm.len() as int) =~= Seq::<SchemaEntryModel>::empty());
        let full = bind_slots_model(sm, record_values_model(rv0), map0);
        assert(full.0 =~= record_values_model(out@));
        assert(sm.take(sm.len() as int) =~= sm);
        assert(full.1 == m@);
        assert(full.2 =~= msgs@.map_values(|mm: String| mm@));
    }
    if m.len() > 0 {
        let keys = m.key_list();
        let joined = join_strings(&keys, ", ");
        let mut msg = String::from_str("the following settings were not recognised: [");
        msg.append(joined.as_str());
        msg.append("]");
        let ghost old_msgs = msgs@.map_values(|mm: String| mm@);
        proof {
            assert(keys@.map_values(|k: String| k@) =~= keys_of(m@));
        }
        msgs.push(msg);
        proof {
            assert(msgs@.map_values(|mm: String| mm@) =~= old_msgs.push(msg_leftover(keys_of(m@))));
        }
    }
    (Record { values: out }, msgs)
}

/// The text a scalar value serializes to.
pub open spec fn value_text(v: FieldValueModel) -> Seq<char> {
    match v {
        FieldValueModel::Boolean(b) => if b {
            "true"@
        } else {
            "false"@
        },
        FieldValueModel::Text(t) => t,
    }
}

/// The dotted path of a section under its parents.
pub open spec fn path_text(parents: Seq<char>, name: Seq<char>) -> Seq<char> {
    if parents.len() == 0 {
        name
    } else {
        parents + "."@ + name
    }
}

/// The documentation line written above a field, when available.
pub open spec fn comment_text(c: Option<Seq<char>>) -> Seq<char> {
    match c {
        Some(t) => "#"@ + t + "\n"@,
        None => Seq::<char>::empty(),
    }
}

/// The line one scalar field serializes to, preceded by its comment.
pub open spec fn scalar_line(d: FieldDefModel, v: RecordValueModel) -> Seq<char> {
    comment_text(d.comment) + d.name + " = "@ + (match v {
        RecordValueModel::Value(fv) => value_text(fv),
        RecordValueModel::Table(_) => Seq::<char>::empty(),
    }) + "\n"@
}

/// The text one schema entry serializes to: a scalar line (nothing for a
/// `no_config` field), or a blank line, a header and the section's body.
pub open spec fn entry_text(e: SchemaEntryModel, v: RecordValueModel, parents: Seq<char>) -> Seq<
    char,
>
    decreases e,
{
    match e {
        SchemaEntryModel::Scalar(d) => if d.no_config {
            Seq::<char>::empty()
        } else {
            scalar_line(d, v)
        },
        SchemaEntryModel::Section(name, sub) => "\n["@ + path_text(parents, name) + "]\n"@
            + serialize_model(
            sub,
            (match v {
                RecordValueModel::Table(t) => t,
                RecordValueModel::Value(_) => Seq::<RecordValueModel>::empty(),
            }),
            path_text(parents, name),
        ),
    }
}

/// What a record serializes to under a schema: one `key = value` line per
/// scalar field (skipping `no_config` fields), and for each section a
/// blank line, a `[parents.name]` header and the section's own
/// serialization, all in declaration order.
pub open spec fn serialize_model(
    s: Seq<SchemaEntryModel>,
    r: Seq<RecordValueModel>,
    parents: Seq<char>,
) -> Seq<char>
    decreases s,
{
    if s.len() == 0 {
        Seq::<char>::empty()
    } else {
        entry_text(s[0], r[0], parents) + serialize_model(s.drop_first(), r.drop_first(), parents)
    }
}

/// Serializes a record under its schema into configuration text that the
/// parser reads back; `parents` is the dotted path of the enclosing
/// sections, empty at the top level.
pub fn serialize_record(schema: &Schema, rec: &Record, parents: &str) -> (r: String)
    requires
        record_matches(schema@, rec@),
    ensures
        r@ == serialize_model(schema@, rec@, parents@),
    decreases schema,
{
    proof {
        lemma_schema_entries_model_len(schema.entries@);
        lemma_record_values_model_len(rec.values@);
    }
    let ghost sm = schema@;
    let ghost rv = rec@;
    let n = schema.entries.len();
    let mut out = String::new();
    let mut i: usize = 0;
    proof {
        assert(sm.skip(0) =~= sm);
        assert(rv.skip(0) =~= rv);
        assert(Seq::<char>::empty() + serialize_model(sm, rv, parents@) =~= serialize_model(
            sm,
            rv,
            parents@,
        ));
    }
    while i < n
        invariant
            sm == schema@,
            rv == rec@,
            n == schema.entries@.len(),
            sm.len() == n,
            rv.len() == n,
            record_matches(sm, rv),
            0 <= i <= n,
            serialize_model(sm, rv, parents@) == out@ + serialize_model(
                sm.skip(i as int),
                rv.skip(i as int),
                parents@,
            ),
        decreases n - i,
    {
        proof {
            lemma_schema_entries_model_len(schema.entries@);
            lemma_schema_entries_model_index(schema.entries@, i as int);
            lemma_record_values_model_len(rec.values@);
            lemma_record_values_model_index(rec.values@, i as int);
            assert(sm.skip(i as int)[0] == sm[i as int]);
            assert(rv.skip(i as int)[0] == rv[i as int]);
            assert(sm.skip(i as int).drop_first() =~= sm.skip(i as int + 1));
            assert(rv.skip(i as int).drop_first() =~= rv.skip(i as int + 1));
            assert(record_slot_matches(sm[i as int], rv[i as int]));
        }
        let ghost hd = entry_text(sm[i as int], rv[i as int], parents@);
        let ghost out0 = out@;
        match &schema.entries[i] {
            SchemaEntry::Scalar(d) => {
                if !d.no_config {
                    match &d.comment {
                        Some(c) => {
                            out.append("#");
                            out.append(c.as_str());
                            out.append("\n");
                        },
                        None => {},
                    }
                    out.append(d.name.as_str());
                    out.append(" = ");
                    match &rec.values[i] {
                        RecordValue::Value(FieldValue::Boolean(b)) => {
                            if *b {
                                out.append("true");
                            } else {
                                out.append("false");
                            }
                        },
                        RecordValue::Value(FieldValue::Text(t)) => {
                            out.append(t.as_str());
                        },
                        RecordValue::Table(_) => {
                            proof {
                                assert(false);
                            }
                        },
                    }
                    out.append("\n");
                }
                proof {
                    assert(out@ =~= out0 + hd);
                }
            },
            SchemaEntry::Section(name, sub) => {
                let path: String = if parents.unicode_len() == 0 {
                    name.as_str().to_owned()
                } else {
                    let mut p = String::from_str(parents);
                    p.append(".");
                    p.append(name.as_str());
                    p
                };
                proof {
                    assert(path@ == path_text(parents@, name@));
                }
                out.append("\n[");
                out.append(path.as_str());
                out.append("]\n");
                match &rec.values[i] {
                    RecordValue::Table(rsub) => {
                        let body = serialize_record(sub, rsub, path.as_str());
                        out.append(body.as_str());
                    },
                    RecordValue::Value(_) => {
                        proof {
                            assert(false);
                        }
                    },
                }
                proof {
                    assert(out@ =~= out0 + hd);
                }
            },
        }
        proof {
            let tail = serialize_model(sm.skip(i as int + 1), rv.skip(i as int + 1), parents@);
            assert(out0 + (hd + tail) =~= (out0 + hd) + tail);
        }
        i = i + 1;
    }
    proof {
        assert(sm.skip(n as int) =~= Seq::<SchemaEntryModel>::empty());
        assert(rv.skip(n as int) =~= Seq::<RecordValueModel>::empty());
        assert(out@ + Seq::<char>::empty() =~= out@);
    }
    out
}

/// Whether a style descriptor compiles without error.
pub open spec fn style_ok(t: Seq<char>) -> bool {
    crate::format::first_unknown(style_tokens(t)) == -1 && crate::format::color_seqs(
        style_tokens(t),
    ).len() <= 1
}

/// Diagnostic for a style descriptor that does not compile.
pub open spec fn msg_style_failed(t: Seq<char>) -> Seq<char> {
    "failed to convert `"@ + t + "` to an ansi escape sequence"@
}

/// What the style pass does to one record slot: a `style`-flagged text
/// field is replaced by its compiled escape sequences, or kept raw with
/// one diagnostic when its descriptor does not compile; sections recurse.
pub open spec fn style_slot_model(e: SchemaEntryModel, v: RecordValueModel) -> (
    RecordValueModel,
    Seq<Seq<char>>,
)
    decreases e, 0int,
{
    match e {
        SchemaEntryModel::Scalar(d) => {
            if d.style {
                match v {
                    RecordValueModel::Value(FieldValueModel::Text(t)) => {
                        if style_ok(t) {
                            (
                                RecordValueModel::Value(
                                    FieldValueModel::Text(compiled_style(style_tokens(t))),
                                ),
                                Seq::<Seq<char>>::empty(),
                            )
                        } else {
                            (v, seq![msg_style_failed(t)])
                        }
                    },
                    _ => (v, Seq::<Seq<char>>::empty()),
                }
            } else {
                (v, Seq::<Seq<char>>::empty())
            }
        },
        SchemaEntryModel::Section(_, sub) => {
            let vsub = match v {
                RecordValueModel::Table(r) => r,
                RecordValueModel::Value(_) => Seq::<RecordValueModel>::empty(),
            };
            let bound = apply_styles_model(sub, vsub);
            (RecordValueModel::Table(bound.0), bound.1)
        },
    }
}

/// Folds [`style_slot_model`] over a whole record.
pub open spec fn apply_styles_model(s: Seq<SchemaEntryModel>, r: Seq<RecordValueModel>) -> (
    Seq<RecordValueModel>,
    Seq<Seq<char>>,
)
    decreases s, 1int,
{
    if s.len() == 0 {
        (Seq::<RecordValueModel>::empty(), Seq::<Seq<char>>::empty())
    } else {
        let head = style_slot_model(s[0], r[0]);
        let rest = apply_styles_model(s.drop_first(), r.drop_first());
        (seq![head.0] + rest.0, head.1 + rest.1)
    }
}

/// Runs the style compiler over every `style`-flagged field of a record,
/// recursing into sections. A field whose descriptor does not compile
/// keeps its raw descriptor and contributes one diagnostic.
pub fn apply_styles(schema: &Schema, rec: Record) -> (r: (Record, Vec<String>))
    requires
        record_matches(schema@, rec@),
    ensures
        ({
            let b = apply_styles_model(schema@, rec@);
            r.0@ == b.0 && r.1@.map_values(|m: String| m@) == b.1
        }),
        record_matches(schema@, r.0@),
    decreases schema,
{
    proof {
        lemma_schema_entries_model_len(schema.entries@);
        lemma_record_values_model_len(rec.values@);
    }
    let ghost sm = schema@;
    let ghost rv0 = rec@;
    let n = schema.entries.len();
    let mut values = rec.values;
    let mut out: Vec<RecordValue> = Vec::new();
    let mut msgs: Vec<String> = Vec::new();
    let mut i: usize = 0;
    proof {
        assert(sm.skip(0) =~= sm);
        assert(record_values_model(values@) =~= rv0);
        assert(record_values_model(out@) =~= Seq::<RecordValueModel>::empty());
        assert(msgs@.map_values(|mm: String| mm@) =~= Seq::<Seq<char>>::empty());
    }
    while i < n
        invariant
            sm == schema@,
            n == schema.entries@.len(),
            sm.len() == n,
            0 <= i <= n,
            values@.len() == n - i,
            record_matches(sm.skip(i as int), record_values_model(values@)),
            record_values_model(out@).len() == i,
            record_matches(sm.take(i as int), record_values_model(out@)),
            ({
                let full = apply_styles_model(sm, rv0);
                let rest = apply_styles_model(sm.skip(i as int), record_values_model(values@));
                full.0 == record_values_model(out@) + rest.0 && full.1 == msgs@.map_values(
                    |mm: String| mm@,
                ) + rest.1
            }),
        decreases n - i,
    {
        proof {
            lemma_schema_entries_model_len(schema.entries@);
            lemma_schema_entries_model_index(schema.entries@, i as int);
            lemma_record_values_model_len(values@);
            lemma_record_values_model_index(values@, 0);
            lemma_record_values_model_drop_first(values@);
            assert(sm.skip(i as int)[0] == sm[i as int]);
            assert(sm.skip(i as int).drop_first() =~= sm.skip(i as int + 1));
            assert(record_slot_matches(sm[i as int], record_values_model(values@)[0]));
        }
        let ghost rest_vals = record_values_model(values@);
        let v = values.remove(0);
        let ghost vm = record_value_model(v);
        proof {
            assert(vm == rest_vals[0]);
        }
        let ghost slot_result = style_slot_model(sm[i as int], vm);
        let ghost old_out = record_values_model(out@);
        let ghost old_msgs = msgs@.map_values(|mm: String| mm@);

        let slot: RecordValue = match &schema.entries[i] {
            SchemaEntry::Scalar(d) => {
                if d.style {
                    match v {
                        RecordValue::Value(FieldValue::Text(t)) => {
                            match parse_style(&t) {
                                Ok(compiled) => RecordValue::Value(FieldValue::Text(compiled)),
                                Err(_) => {
                                    let msg = msg_wrap(
                                        "failed to convert `",
                                        t.as_str(),
                                        "` to an ansi escape sequence",
                                    );
                                    msgs.push(msg);
                                    proof {
                                        assert(msgs@.map_values(|mm: String| mm@)
                                            =~= old_msgs.push(msg_style_failed(t@)));
                                    }
                                    RecordValue::Value(FieldValue::Text(t))
                                },
                            }
                        },
                        other => other,
                    }
                } else {
                    v
                }
            },
            SchemaEntry::Section(_, sub) => {
                match v {
                    RecordValue::Table(rsub) => {
                        let bound = apply_styles(sub, rsub);
                        let mut sub_msgs = bound.1;
                        let ghost appended = sub_msgs@.map_values(|mm: String| mm@);
                        msgs.append(&mut sub_msgs);
                        proof {
                            assert(msgs@.map_values(|mm: String| mm@) =~= old_msgs + appended);
                        }
                        RecordValue::Table(bound.0)
                    },
                    RecordValue::Value(fv) => {
                        proof {
                            assert(false);
                        }
                        RecordValue::Value(fv)
                    },
                }
            },
        };
        proof {
            lemma_record_values_model_push(out@, slot);
            assert(record_value_model(slot) == slot_result.0);
        }
        out.push(slot);
        proof {
            assert(record_values_model(out@) =~= old_out.push(slot_result.0));
            assert(record_slot_matches(sm[i as int], slot_result.0));
            assert(sm.take(i as int + 1) =~= sm.take(i as int).push(sm[i as int]));
            assert forall|j: int|
                0 <= j < i + 1 implies record_slot_matches(
                #[trigger] sm.take(i as int + 1)[j],
                record_values_model(out@)[j],
            ) by {
                if j < i {
                    assert(sm.take(i as int + 1)[j] == sm.take(i as int)[j]);
                    assert(record_values_model(out@)[j] == old_out[j]);
                    assert(record_slot_matches(sm.take(i as int)[j], old_out[j]));
                } else {
                    assert(sm.take(i as int + 1)[j] == sm[i as int]);
                    assert(record_values_model(out@)[j] == slot_result.0);
                }
            }
            assert(msgs@.map_values(|mm: String| mm@) =~= old_msgs + slot_result.1);
            let rest_now = apply_styles_model(sm.skip(i as int + 1), record_values_model(values@));
            assert(old_out + (seq![slot_result.0] + rest_now.0) =~= old_out.push(slot_result.0)
                + rest_now.0);
            assert(old_msgs + (slot_result.1 + rest_now.1) =~= (old_msgs + slot_result.1)
                + rest_now.1);
            assert forall|j: int|
                0 <= j < sm.skip(i as int + 1).len() implies record_slot_matches(
                #[trigger] sm.skip(i as int + 1)[j],
                record_values_model(values@)[j],
            ) by {
                assert(sm.skip(i as int + 1)[j] == sm.skip(i as int)[j + 1]);
                assert(record_values_model(values@)[j] == rest_vals[j + 1]);
                assert(record_slot_matches(sm.skip(i as int)[j + 1], rest_vals[j + 1]));
            }
        }
        i = i + 1;
    }
    proof {
        assert(sm.skip(sm.len() as int) =~= Seq::<SchemaEntryModel>::empty());
        let full = apply_styles_model(sm, rv0);
        assert(full.0 =~= record_values_model(out@));
        assert(sm.take(sm.len() as int) =~= sm);
        assert(full.1 =~= msgs@.map_values(|mm: String| mm@));
    }
    (Record { values: out }, msgs)
}

/// The diagnostics that binding an empty table produces: one "could not
/// find" message per non-`no_config` scalar field and one "no table"
/// message per section, in declaration order.
pub open spec fn missing_msgs(s: Seq<SchemaEntryModel>) -> Seq<Seq<char>>
    decreases s,
{
    if s.len() == 0 {
        Seq::<Seq<char>>::empty()
    } else {
        (match s[0] {
            SchemaEntryModel::Scalar(d) => if d.no_config {
                Seq::<Seq<char>>::empty()
            } else {
                seq![msg_not_found(d.name)]
            },
            SchemaEntryModel::Section(name, _) => seq![msg_no_table(name)],
        }) + missing_msgs(s.drop_first())
    }
}

proof fn lemma_bind_slots_empty(s: Seq<SchemaEntryModel>, r: Seq<RecordValueModel>)
    requires
        r.len() == s.len(),
    ensures
        bind_slots_model(s, r, Seq::<EntryModel>::empty()).0 == r,
        bind_slots_model(s, r, Seq::<EntryModel>::empty()).1 == Seq::<EntryModel>::empty(),
        bind_slots_model(s, r, Seq::<EntryModel>::empty()).2 == missing_msgs(s),
    decreases s,
{
    let empty_map = Seq::<EntryModel>::empty();
    if s.len() == 0 {
        assert(bind_slots_model(s, r, empty_map).0 =~= r);
        assert(bind_slots_model(s, r, empty_map).2 =~= missing_msgs(s));
    } else {
        let head = bind_slot_model(s[0], r[0], empty_map);
        assert(head.0 == r[0] && head.1 == empty_map) by {
            match s[0] {
                SchemaEntryModel::Scalar(_) => {},
                SchemaEntryModel::Section(_, _) => {},
            }
        }
        lemma_bind_slots_empty(s.drop_first(), r.drop_first());
        assert(seq![head.0] + r.drop_first() =~= r);
        assert(head.2 + missing_msgs(s.drop_first()) =~= missing_msgs(s));
    }
}

/// Law: binding an empty table tree against any schema, starting from the
/// schema's compile-time defaults, yields exactly the defaults again, and
/// a diagnostics collection holding, in declaration order, exactly one
/// "could not find" message per non-`no_config` scalar field and one
/// "no table" message per section - and nothing else.
pub proof fn lemma_bind_empty_is_default(s: Seq<SchemaEntryModel>)
    ensures
        bind_record_model(s, default_record_model(s), Seq::<EntryModel>::empty()).0
            == default_record_model(s),
        bind_record_model(s, default_record_model(s), Seq::<EntryModel>::empty()).1
            == missing_msgs(s),
{
    lemma_default_record_model_len(s);
    lemma_bind_slots_empty(s, default_record_model(s));
}

/// Law: binding a table that holds the one known key and one stray key
/// against a schema of exactly one text field binds the known key's
/// value and yields exactly one diagnostic, the aggregated message
/// naming exactly the stray key.
pub proof fn lemma_unrecognized_key_aggregation(
    d: FieldDefModel,
    start: FieldValueModel,
    known_value: Seq<char>,
    bogus: Seq<char>,
    bogus_value: Seq<char>,
)
    requires
        !d.no_config,
        d.default is Text,
        bogus != d.name,
    ensures
        ({
            let schema = seq![SchemaEntryModel::Scalar(d)];
            let rec = seq![RecordValueModel::Value(start)];
            let map = seq![
                EntryModel { key: d.name, value: ElemModel::Setting(known_value) },
                EntryModel { key: bogus, value: ElemModel::Setting(bogus_value) },
            ];
            bind_record_model(schema, rec, map).0 == seq![
                RecordValueModel::Value(FieldValueModel::Text(known_value)),
            ] && bind_record_model(schema, rec, map).1 == seq![msg_leftover(seq![bogus])]
        }),
{
    let schema = seq![SchemaEntryModel::Scalar(d)];
    let rec = seq![RecordValueModel::Value(start)];
    let stray = EntryModel { key: bogus, value: ElemModel::Setting(bogus_value) };
    let map = seq![EntryModel { key: d.name, value: ElemModel::Setting(known_value) }, stray];
    assert(map[0].key == d.name);
    assert(find_key(map, d.name) == 0);
    assert(key_value(map, d.name) == ElemModel::Setting(known_value));
    let map2 = remove_key(map, d.name);
    assert(map2 =~= seq![stray]);
    let head = bind_slot_model(schema[0], rec[0], map);
    assert(head == (
        RecordValueModel::Value(FieldValueModel::Text(known_value)),
        map2,
        Seq::<Seq<char>>::empty(),
    ));
    assert(schema.drop_first() =~= Seq::<SchemaEntryModel>::empty());
    assert(bind_slots_model(schema.drop_first(), rec.drop_first(), map2) == (
        Seq::<RecordValueModel>::empty(),
        map2,
        Seq::<Seq<char>>::empty(),
    ));
    assert(bind_slots_model(schema, rec, map).0 =~= seq![
        RecordValueModel::Value(FieldValueModel::Text(known_value)),
    ]);
    assert(bind_slots_model(schema, rec, map).2 =~= Seq::<Seq<char>>::empty());
    assert(keys_of(map2) =~= seq![bogus]);
    assert(bind_record_model(schema, rec, map).1 =~= seq![msg_leftover(seq![bogus])]);
}

/// The names bound at one schema level, in declaration order; `no_config`
/// fields claim no name.
pub open spec fn level_names(s: Seq<SchemaEntryModel>) -> Seq<Seq<char>>
    decreases s,
{
    if s.len() == 0 {
        Seq::<Seq<char>>::empty()
    } else {
        (match s[0] {
            SchemaEntryModel::Scalar(d) => if d.no_config {
                Seq::<Seq<char>>::empty()
            } else {
                seq![d.name]
            },
            SchemaEntryModel::Section(name, _) => seq![name],
        }) + level_names(s.drop_first())
    }
}

/// The table tree that a record serializes to, in schema order: one
/// setting per non-`no_config` scalar field, one nested table per
/// section.
pub open spec fn tree_of(s: Seq<SchemaEntryModel>, r: Seq<RecordValueModel>) -> Seq<EntryModel>
    decreases s,
{
    if s.len() == 0 {
        Seq::<EntryModel>::empty()
    } else {
        (match s[0] {
            SchemaEntryModel::Scalar(d) => if d.no_config {
                Seq::<EntryModel>::empty()
            } else {
                seq![
                    EntryModel {
                        key: d.name,
                        value: ElemModel::Setting(
                            value_text(
                                match r[0] {
                                    RecordValueModel::Value(fv) => fv,
                                    RecordValueModel::Table(_) => FieldValueModel::Boolean(false),
                                },
                            ),
                        ),
                    },
                ]
            },
            SchemaEntryModel::Section(name, sub) => seq![
                EntryModel {
                    key: name,
                    value: ElemModel::Nested(
                        tree_of(
                            sub,
                            match r[0] {
                                RecordValueModel::Table(t) => t,
                                RecordValueModel::Value(_) => Seq::<RecordValueModel>::empty(),
                            },
                        ),
                    ),
                },
            ],
        }) + tree_of(s.drop_first(), r.drop_first())
    }
}

/// Whether every `no_config` scalar slot of `start`, at any depth,
/// already holds the same value as the corresponding slot of `r`.
/// Binding never touches such fields, so a round trip can only restore
/// them if they agree.
pub open spec fn agrees_on_no_config(
    s: Seq<SchemaEntryModel>,
    start: Seq<RecordValueModel>,
    r: Seq<RecordValueModel>,
) -> bool
    decreases s,
{
    forall|i: int|
        0 <= i < s.len() ==> match #[trigger] s[i] {
            SchemaEntryModel::Scalar(d) => d.no_config ==> start[i] == r[i],
            SchemaEntryModel::Section(_, sub) => agrees_on_no_config(
                sub,
                (match start[i] {
                    RecordValueModel::Table(t) => t,
                    RecordValueModel::Value(_) => Seq::<RecordValueModel>::empty(),
                }),
                (match r[i] {
                    RecordValueModel::Table(t) => t,
                    RecordValueModel::Value(_) => Seq::<RecordValueModel>::empty(),
                }),
            ),
        }
}

proof fn lemma_bind_tree_slots(
    s: Seq<SchemaEntryModel>,
    start: Seq<RecordValueModel>,
    r: Seq<RecordValueModel>,
)
    requires
        record_matches(s, start),
        record_matches(s, r),
        agrees_on_no_config(s, start, r),
    ensures
        bind_slots_model(s, start, tree_of(s, r)).0 == r,
        bind_slots_model(s, start, tree_of(s, r)).1 == Seq::<EntryModel>::empty(),
        bind_slots_model(s, start, tree_of(s, r)).2 == Seq::<Seq<char>>::empty(),
    decreases s, 2int,
{
    reveal_strlit("true");
    reveal_strlit("false");
    let map = tree_of(s, r);
    if s.len() == 0 {
        assert(bind_slots_model(s, start, map).0 =~= r);
    } else {
        let rest_map = tree_of(s.drop_first(), r.drop_first());
        assert(record_slot_matches(s[0], start[0]));
        assert(record_slot_matches(s[0], r[0]));
        assert forall|j: int|
            0 <= j < s.drop_first().len() implies record_slot_matches(
            #[trigger] s.drop_first()[j],
            start.drop_first()[j],
        ) && record_slot_matches(s.drop_first()[j], r.drop_first()[j]) by {
            assert(s.drop_first()[j] == s[j + 1]);
            assert(start.drop_first()[j] == start[j + 1]);
            assert(r.drop_first()[j] == r[j + 1]);
        }
        assert(agrees_on_no_config(s.drop_first(), start.drop_first(), r.drop_first())) by {
            assert forall|j: int|
                0 <= j < s.drop_first().len() implies match #[trigger] s.drop_first()[j] {
                SchemaEntryModel::Scalar(d) => d.no_config ==> start.drop_first()[j]
                    == r.drop_first()[j],
                SchemaEntryModel::Section(_, sub) => agrees_on_no_config(
                    sub,
                    (match start.drop_first()[j] {
                        RecordValueModel::Table(t) => t,
                        RecordValueModel::Value(_) => Seq::<RecordValueModel>::empty(),
                    }),
                    (match r.drop_first()[j] {
                        RecordValueModel::Table(t) => t,
                        RecordValueModel::Value(_) => Seq::<RecordValueModel>::empty(),
                    }),
                ),
            } by {
                assert(s.drop_first()[j] == s[j + 1]);
                assert(start.drop_first()[j] == start[j + 1]);
                assert(r.drop_first()[j] == r[j + 1]);
            }
        }
        let head = bind_slot_model(s[0], start[0], map);
        match s[0] {
            SchemaEntryModel::Scalar(d) => {
                if d.no_config {
                    assert(map =~= rest_map);
                    assert(head == (start[0], map, Seq::<Seq<char>>::empty()));
                    assert(start[0] == r[0]);
                } else {
                    let entry = EntryModel {
                        key: d.name,
                        value: ElemModel::Setting(
                            value_text(
                                match r[0] {
                                    RecordValueModel::Value(fv) => fv,
                                    RecordValueModel::Table(_) => FieldValueModel::Boolean(false),
                                },
                            ),
                        ),
                    };
                    assert(map =~= seq![entry] + rest_map);
                    assert(map[0] == entry);
                    assert(find_key(map, d.name) == 0);
                    assert(key_value(map, d.name) == entry.value);
                    assert(remove_key(map, d.name) =~= rest_map);
                    match r[0] {
                        RecordValueModel::Value(fv) => {
                            match fv {
                                FieldValueModel::Boolean(b) => {
                                    assert("true"@ != "false"@) by {
                                        assert("true"@.len() == 4);
                                        assert("false"@.len() == 5);
                                    }
                                    assert(head.0 == r[0]);
                                },
                                FieldValueModel::Text(_) => {
                                    assert(head.0 == r[0]);
                                },
                            }
                        },
                        RecordValueModel::Table(_) => {
                            assert(false);
                        },
                    }
                }
            },
            SchemaEntryModel::Section(name, sub) => {
                let rsub = match r[0] {
                    RecordValueModel::Table(t) => t,
                    RecordValueModel::Value(_) => Seq::<RecordValueModel>::empty(),
                };
                let ssub = match start[0] {
                    RecordValueModel::Table(t) => t,
                    RecordValueModel::Value(_) => Seq::<RecordValueModel>::empty(),
                };
                let entry = EntryModel { key: name, value: ElemModel::Nested(tree_of(sub, rsub)) };
                assert(map =~= seq![entry] + rest_map);
                assert(map[0] == entry);
                assert(find_key(map, name) == 0);
                assert(key_value(map, name) == entry.value);
                assert(remove_key(map, name) =~= rest_map);
                assert(agrees_on_no_config(sub, ssub, rsub));
                lemma_bind_tree_record(sub, ssub, rsub);
                assert(head.0 == r[0]);
            },
        }
        lemma_bind_tree_slots(s.drop_first(), start.drop_first(), r.drop_first());
        assert(seq![head.0] + r.drop_first() =~= r);
        assert(head.2 + Seq::<Seq<char>>::empty() =~= Seq::<Seq<char>>::empty());
    }
}

proof fn lemma_bind_tree_record(
    s: Seq<SchemaEntryModel>,
    start: Seq<RecordValueModel>,
    r: Seq<RecordValueModel>,
)
    requires
        record_matches(s, start),
        record_matches(s, r),
        agrees_on_no_config(s, start, r),
    ensures
        bind_record_model(s, start, tree_of(s, r)).0 == r,
        bind_record_model(s, start, tree_of(s, r)).1 == Seq::<Seq<char>>::empty(),
    decreases s, 3int,
{
    lemma_bind_tree_slots(s, start, r);
}

/// Law: for any schema and any record shaped like it, binding the table
/// tree that the record stands for - one setting per scalar field, one
/// nested table per section - against the schema, starting from any
/// record that agrees on the `no_config` fields (in particular from the
/// defaults, when `no_config` fields hold their defaults), recovers
/// exactly the record, with empty diagnostics. This is the binding half
/// of the serialize/parse/bind round trip.
pub proof fn lemma_bind_round_trip(
    s: Seq<SchemaEntryModel>,
    start: Seq<RecordValueModel>,
    r: Seq<RecordValueModel>,
)
    requires
        record_matches(s, start),
        record_matches(s, r),
        agrees_on_no_config(s, start, r),
    ensures
        bind_record_model(s, start, tree_of(s, r)).0 == r,
        bind_record_model(s, start, tree_of(s, r)).1 == Seq::<Seq<char>>::empty(),
{
    lemma_bind_tree_record(s, start, r);
}

/// Whether the schema is flat: scalar fields only, no sections.
pub open spec fn is_flat(s: Seq<SchemaEntryModel>) -> bool {
    forall|i: int| 0 <= i < s.len() ==> (#[trigger] s[i]) is Scalar
}

/// Whether a flat schema survives one serialize/parse trip: every field
/// name is a safe key, comments hold no line breaks, and the bound names
/// are distinct.
pub open spec fn safe_flat_schema(s: Seq<SchemaEntryModel>) -> bool {
    is_flat(s) && (forall|i: int|
        0 <= i < s.len() ==> match #[trigger] s[i] {
            SchemaEntryModel::Scalar(d) => safe_key(d.name) && (match d.comment {
                Some(c) => !crate::text::contains_char(c, '\n'),
                None => true,
            }),
            SchemaEntryModel::Section(_, _) => true,
        }) && (forall|i: int, j: int|
        0 <= i < j < level_names(s).len() ==> level_names(s)[i] != level_names(s)[j])
}

/// Whether a record's text values survive one serialize/parse trip.
pub open spec fn safe_flat_record(s: Seq<SchemaEntryModel>, r: Seq<RecordValueModel>) -> bool {
    forall|i: int|
        0 <= i < s.len() ==> match #[trigger] s[i] {
            SchemaEntryModel::Scalar(d) => d.no_config || (match r[i] {
                RecordValueModel::Value(FieldValueModel::Text(t)) => safe_value(t),
                _ => true,
            }),
            SchemaEntryModel::Section(_, _) => true,
        }
}

/// The serialized form of a flat schema as a list of lines: an optional
/// comment line and one `key = value` line per field.
pub open spec fn lines_of_flat(s: Seq<SchemaEntryModel>, r: Seq<RecordValueModel>) -> Seq<
    Seq<char>,
>
    decreases s,
{
    if s.len() == 0 {
        Seq::<Seq<char>>::empty()
    } else {
        (match s[0] {
            SchemaEntryModel::Scalar(d) => if d.no_config {
                Seq::<Seq<char>>::empty()
            } else {
                (match d.comment {
                    Some(c) => seq!["#"@ + c],
                    None => Seq::<Seq<char>>::empty(),
                }) + seq![
                    d.name + " = "@ + value_text(
                        match r[0] {
                            RecordValueModel::Value(fv) => fv,
                            RecordValueModel::Table(_) => FieldValueModel::Boolean(false),
                        },
                    ),
                ]
            },
            SchemaEntryModel::Section(_, _) => Seq::<Seq<char>>::empty(),
        }) + lines_of_flat(s.drop_first(), r.drop_first())
    }
}

/// Lines glued back into text, each terminated by a newline.
pub open spec fn unsplit_lines(lines: Seq<Seq<char>>) -> Seq<char>
    decreases lines.len(),
{
    if lines.len() == 0 {
        Seq::<char>::empty()
    } else {
        lines[0] + seq!['\n'] + unsplit_lines(lines.drop_first())
    }
}

/// A flat schema serializes to exactly its lines, each `\n`-terminated.
proof fn lemma_serialize_flat_unsplit(
    s: Seq<SchemaEntryModel>,
    r: Seq<RecordValueModel>,
    parents: Seq<char>,
)
    requires
        is_flat(s),
        record_matches(s, r),
    ensures
        serialize_model(s, r, parents) == unsplit_lines(lines_of_flat(s, r)),
    decreases s,
{
    reveal_strlit("\n");
    reveal_with_fuel(unsplit_lines, 4);
    assert("\n"@ =~= seq!['\n']);
    if s.len() == 0 {
    } else {
        assert(s[0] is Scalar);
        assert(record_slot_matches(s[0], r[0]));
        assert forall|i: int| 0 <= i < s.drop_first().len() implies (#[trigger] s.drop_first()[i])
            is Scalar && record_slot_matches(s.drop_first()[i], r.drop_first()[i]) by {
            assert(s.drop_first()[i] == s[i + 1]);
            assert(r.drop_first()[i] == r[i + 1]);
        }
        lemma_serialize_flat_unsplit(s.drop_first(), r.drop_first(), parents);
        assert(serialize_model(s, r, parents) == entry_text(s[0], r[0], parents)
            + serialize_model(s.drop_first(), r.drop_first(), parents));
        match s[0] {
            SchemaEntryModel::Scalar(d) => {
                assert(entry_text(s[0], r[0], parents) == (if d.no_config {
                    Seq::<char>::empty()
                } else {
                    scalar_line(d, r[0])
                }));
                if d.no_config {
                    assert(lines_of_flat(s, r) =~= lines_of_flat(s.drop_first(), r.drop_first()));
                    assert(serialize_model(s, r, parents) =~= serialize_model(
                        s.drop_first(),
                        r.drop_first(),
                        parents,
                    ));
                } else {
                    let kv = d.name + " = "@ + value_text(
                        match r[0] {
                            RecordValueModel::Value(fv) => fv,
                            RecordValueModel::Table(_) => FieldValueModel::Boolean(false),
                        },
                    );
                    match d.comment {
                        Some(c) => {
                            assert(lines_of_flat(s, r) =~= seq!["#"@ + c, kv] + lines_of_flat(
                                s.drop_first(),
                                r.drop_first(),
                            ));
                            assert(unsplit_lines(lines_of_flat(s, r)) =~= ("#"@ + c) + seq!['\n']
                                + (kv + seq!['\n'] + unsplit_lines(
                                lines_of_flat(s.drop_first(), r.drop_first()),
                            ))) by {
                                let rest = lines_of_flat(s.drop_first(), r.drop_first());
                                assert((seq!["#"@ + c, kv] + rest).drop_first() =~= seq![kv]
                                    + rest);
                                assert((seq![kv] + rest).drop_first() =~= rest);
                            }
                            assert(serialize_model(s, r, parents) =~= unsplit_lines(
                                lines_of_flat(s, r),
                            ));
                        },
                        None => {
                            assert(lines_of_flat(s, r) =~= seq![kv] + lines_of_flat(
                                s.drop_first(),
                                r.drop_first(),
                            ));
                            assert((seq![kv] + lines_of_flat(s.drop_first(), r.drop_first()))
                                .drop_first() =~= lines_of_flat(s.drop_first(), r.drop_first()));
                            assert(serialize_model(s, r, parents) =~= unsplit_lines(
                                lines_of_flat(s, r),
                            ));
                        },
                    }
                }
            },
            SchemaEntryModel::Section(_, _) => {
                assert(false);
            },
        }
    }
}

/// Splitting glued lines at newlines recovers the lines, plus one empty
/// final piece.
proof fn lemma_split_unsplit(lines: Seq<Seq<char>>)
    requires
        forall|i: int|
            0 <= i < lines.len() ==> !crate::text::contains_char(#[trigger] lines[i], '\n'),
    ensures
        crate::text::split_when(unsplit_lines(lines), |c: char| crate::tree::is_newline(c))
            == lines + seq![Seq::<char>::empty()],
    decreases lines.len(),
{
    let f = |c: char| crate::tree::is_newline(c);
    if lines.len() == 0 {
        assert(unsplit_lines(lines).len() == 0);
        assert(crate::text::split_when(unsplit_lines(lines), f) =~= seq![Seq::<char>::empty()]);
        assert(lines + seq![Seq::<char>::empty()] =~= seq![Seq::<char>::empty()]);
    } else {
        assert forall|i: int|
            0 <= i < lines.drop_first().len() implies !crate::text::contains_char(
            #[trigger] lines.drop_first()[i],
            '\n',
        ) by {
            assert(lines.drop_first()[i] == lines[i + 1]);
        }
        lemma_split_unsplit(lines.drop_first());
        assert forall|k: int| 0 <= k < lines[0].len() implies !f(lines[0][k]) by {
            if lines[0][k] == '\n' {
                assert(crate::text::contains_char(lines[0], '\n'));
            }
        }
        crate::text::lemma_split_when_line(lines[0], '\n', unsplit_lines(lines.drop_first()), f);
        assert(lines[0] + seq!['\n'] + unsplit_lines(lines.drop_first()) =~= unsplit_lines(
            lines,
        ));
        assert(seq![lines[0]] + (lines.drop_first() + seq![Seq::<char>::empty()]) =~= lines
            + seq![Seq::<char>::empty()]);
    }
}

/// Folding the line parser over two line lists in turn.
proof fn lemma_parse_lines_append(st: ParseState, a: Seq<Seq<char>>, b: Seq<Seq<char>>, n: int)
    ensures
        parse_lines_model(st, a + b, n) == parse_lines_model(
            parse_lines_model(st, a, n),
            b,
            n + a.len(),
        ),
    decreases a.len(),
{
    if a.len() == 0 {
        assert(a + b =~= b);
    } else {
        assert((a + b)[0] == a[0]);
        assert((a + b).drop_first() =~= a.drop_first() + b);
        lemma_parse_lines_append(parse_line_model(st, a[0], n), a.drop_first(), b, n + 1);
    }
}

/// The tree built by writing each flat field's serialized value in order.
pub open spec fn settings_fold(
    t: Seq<EntryModel>,
    s: Seq<SchemaEntryModel>,
    r: Seq<RecordValueModel>,
) -> Seq<EntryModel>
    decreases s,
{
    if s.len() == 0 {
        t
    } else {
        let t2 = match s[0] {
            SchemaEntryModel::Scalar(d) => if d.no_config {
                t
            } else {
                crate::tree::set_key(
                    t,
                    d.name,
                    ElemModel::Setting(
                        value_text(
                            match r[0] {
                                RecordValueModel::Value(fv) => fv,
                                RecordValueModel::Table(_) => FieldValueModel::Boolean(false),
                            },
                        ),
                    ),
                )
            },
            SchemaEntryModel::Section(_, _) => t,
        };
        settings_fold(t2, s.drop_first(), r.drop_first())
    }
}

proof fn lemma_bool_text_safe()
    ensures
        safe_value("true"@),
        safe_value("false"@),
        "true"@ != "false"@,
{
    reveal_strlit("true");
    reveal_strlit("false");
    assert forall|k: int| 0 <= k < "true"@.len() implies "true"@[k] != '#' && "true"@[k] != '\n'
        && "true"@[k] != '"' && "true"@[k] != '\'' by {}
    assert forall|k: int|
        0 <= k < "false"@.len() implies "false"@[k] != '#' && "false"@[k] != '\n' && "false"@[k]
        != '"' && "false"@[k] != '\'' by {}
    assert(!crate::text::contains_char("true"@, '#'));
    assert(!crate::text::contains_char("true"@, '\n'));
    assert(!crate::text::contains_char("true"@, '"'));
    assert(!crate::text::contains_char("true"@, '\''));
    assert(!crate::text::contains_char("false"@, '#'));
    assert(!crate::text::contains_char("false"@, '\n'));
    assert(!crate::text::contains_char("false"@, '"'));
    assert(!crate::text::contains_char("false"@, '\''));
}

/// Parsing the serialized lines of a flat schema from any state whose
/// table pointer stands at the root writes exactly the serialized
/// settings into the tree, with no diagnostics.
proof fn lemma_parse_flat_lines(
    s: Seq<SchemaEntryModel>,
    r: Seq<RecordValueModel>,
    st: ParseState,
    n: int,
)
    requires
        safe_flat_schema(s),
        safe_flat_record(s, r),
        r.len() == s.len(),
        st.path == Seq::<Seq<char>>::empty(),
    ensures
        parse_lines_model(st, lines_of_flat(s, r), n) == (ParseState {
            tree: settings_fold(st.tree, s, r),
            path: st.path,
            msgs: st.msgs,
        }),
    decreases s,
{
    if s.len() == 0 {
        assert(st =~= (ParseState { tree: settings_fold(st.tree, s, r), path: st.path, msgs: st.msgs }));
    } else {
        let sd = s.drop_first();
        let rd = r.drop_first();
        assert forall|i: int| 0 <= i < sd.len() implies (#[trigger] sd[i]) is Scalar by {
            assert(sd[i] == s[i + 1]);
        }
        assert forall|i: int|
            0 <= i < sd.len() implies match #[trigger] sd[i] {
            SchemaEntryModel::Scalar(d) => safe_key(d.name) && (match d.comment {
                Some(c) => !crate::text::contains_char(c, '\n'),
                None => true,
            }),
            SchemaEntryModel::Section(_, _) => true,
        } by {
            assert(sd[i] == s[i + 1]);
        }
        assert(level_names(s).len() >= level_names(sd).len()) by {
            lemma_level_names_shape(s);
        }
        assert forall|i: int, j: int|
            0 <= i < j < level_names(sd).len() implies level_names(sd)[i] != level_names(sd)[j] by {
            lemma_level_names_shape(s);
            let off = level_names(s).len() - level_names(sd).len();
            assert(level_names(sd)[i] == level_names(s)[i + off]);
            assert(level_names(sd)[j] == level_names(s)[j + off]);
        }
        assert forall|i: int|
            0 <= i < sd.len() implies match #[trigger] sd[i] {
            SchemaEntryModel::Scalar(d) => d.no_config || (match rd[i] {
                RecordValueModel::Value(FieldValueModel::Text(t)) => safe_value(t),
                _ => true,
            }),
            SchemaEntryModel::Section(_, _) => true,
        } by {
            assert(sd[i] == s[i + 1]);
            assert(rd[i] == r[i + 1]);
        }
        match s[0] {
            SchemaEntryModel::Scalar(d) => {
                if d.no_config {
                    assert(lines_of_flat(s, r) =~= lines_of_flat(sd, rd));
                    lemma_parse_flat_lines(sd, rd, st, n);
                    assert(settings_fold(st.tree, s, r) == settings_fold(st.tree, sd, rd));
                } else {
                    let fv = match r[0] {
                        RecordValueModel::Value(fv) => fv,
                        RecordValueModel::Table(_) => FieldValueModel::Boolean(false),
                    };
                    let vt = value_text(fv);
                    assert(safe_value(vt)) by {
                        lemma_bool_text_safe();
                        match r[0] {
                            RecordValueModel::Value(FieldValueModel::Text(_)) => {},
                            _ => {},
                        }
                    }
                    let kv = d.name + " = "@ + vt;
                    let setting = ElemModel::Setting(vt);
                    match d.comment {
                        Some(c) => {
                            let lines = lines_of_flat(s, r);
                            assert(lines =~= seq!["#"@ + c, kv] + lines_of_flat(sd, rd));
                            assert(lines[0] == "#"@ + c);
                            lemma_parse_comment_line(st, c, n);
                            let st1 = parse_line_model(st, lines[0], n);
                            assert(st1 == st);
                            assert(parse_lines_model(st, lines, n) == parse_lines_model(
                                st1,
                                lines.drop_first(),
                                n + 1,
                            ));
                            assert(lines.drop_first() =~= seq![kv] + lines_of_flat(sd, rd));
                            assert(lines.drop_first()[0] == kv);
                            lemma_parse_kv_line(st1, d.name, vt, n + 1);
                            let st2 = parse_line_model(st1, kv, n + 1);
                            assert(st2.tree == crate::tree::insert_at_path_model(
                                st1.tree,
                                st1.path,
                                0,
                                d.name,
                                vt,
                            ));
                            assert(st2.tree == crate::tree::set_key(st.tree, d.name, setting));
                            assert(st2.path == st.path && st2.msgs == st.msgs);
                            assert(parse_lines_model(st1, lines.drop_first(), n + 1)
                                == parse_lines_model(
                                st2,
                                lines.drop_first().drop_first(),
                                n + 2,
                            ));
                            assert(lines.drop_first().drop_first() =~= lines_of_flat(sd, rd));
                            lemma_parse_flat_lines(sd, rd, st2, n + 2);
                            assert(settings_fold(st.tree, s, r) == settings_fold(
                                st2.tree,
                                sd,
                                rd,
                            ));
                        },
                        None => {
                            let lines = lines_of_flat(s, r);
                            assert(lines =~= seq![kv] + lines_of_flat(sd, rd));
                            assert(lines[0] == kv);
                            lemma_parse_kv_line(st, d.name, vt, n);
                            let st2 = parse_line_model(st, lines[0], n);
                            assert(st2.tree == crate::tree::set_key(st.tree, d.name, setting));
                            assert(st2.path == st.path && st2.msgs == st.msgs);
                            assert(parse_lines_model(st, lines, n) == parse_lines_model(
                                st2,
                                lines.drop_first(),
                                n + 1,
                            ));
                            assert(lines.drop_first() =~= lines_of_flat(sd, rd));
                            lemma_parse_flat_lines(sd, rd, st2, n + 1);
                            assert(settings_fold(st.tree, s, r) == settings_fold(
                                st2.tree,
                                sd,
                                rd,
                            ));
                        },
                    }
                }
            },
            SchemaEntryModel::Section(_, _) => {
                assert(false);
            },
        }
    }
}

/// The shape of [`level_names`]: the names of the tail stand at the end.
proof fn lemma_level_names_shape(s: Seq<SchemaEntryModel>)
    requires
        s.len() > 0,
    ensures
        level_names(s).len() <= 1 + level_names(s.drop_first()).len(),
        forall|i: int|
            0 <= i < level_names(s.drop_first()).len() ==> #[trigger] level_names(
                s.drop_first(),
            )[i] == level_names(s)[i + level_names(s).len() - level_names(s.drop_first()).len()],
{
    let head = match s[0] {
        SchemaEntryModel::Scalar(d) => if d.no_config {
            Seq::<Seq<char>>::empty()
        } else {
            seq![d.name]
        },
        SchemaEntryModel::Section(name, _) => seq![name],
    };
    assert(level_names(s) == head + level_names(s.drop_first()));
}

/// Writing distinct fresh keys into a table appends exactly the tree the
/// record stands for.
proof fn lemma_settings_fold_is_tree_of(
    t: Seq<EntryModel>,
    s: Seq<SchemaEntryModel>,
    r: Seq<RecordValueModel>,
)
    requires
        is_flat(s),
        forall|i: int, j: int|
            0 <= i < j < level_names(s).len() ==> level_names(s)[i] != level_names(s)[j],
        forall|j: int, i: int|
            0 <= j < t.len() && 0 <= i < level_names(s).len() ==> (#[trigger] t[j].key)
                != (#[trigger] level_names(s)[i]),
    ensures
        settings_fold(t, s, r) == t + tree_of(s, r),
    decreases s,
{
    if s.len() == 0 {
        assert(t + tree_of(s, r) =~= t);
    } else {
        let sd = s.drop_first();
        let rd = r.drop_first();
        assert forall|i: int| 0 <= i < sd.len() implies (#[trigger] sd[i]) is Scalar by {
            assert(sd[i] == s[i + 1]);
        }
        lemma_level_names_shape(s);
        let off = level_names(s).len() - level_names(sd).len();
        assert forall|i: int, j: int|
            0 <= i < j < level_names(sd).len() implies level_names(sd)[i] != level_names(
            sd,
        )[j] by {
            assert(level_names(sd)[i] == level_names(s)[i + off]);
            assert(level_names(sd)[j] == level_names(s)[j + off]);
        }
        match s[0] {
            SchemaEntryModel::Scalar(d) => {
                if d.no_config {
                    assert(level_names(s) =~= level_names(sd));
                    assert forall|j: int, i: int|
                        0 <= j < t.len() && 0 <= i < level_names(sd).len() implies (
                    #[trigger] t[j].key) != (#[trigger] level_names(sd)[i]) by {
                        assert(level_names(sd)[i] == level_names(s)[i]);
                    }
                    lemma_settings_fold_is_tree_of(t, sd, rd);
                    assert(tree_of(s, r) =~= tree_of(sd, rd));
                } else {
                    assert(level_names(s) =~= seq![d.name] + level_names(sd));
                    assert(level_names(s)[0] == d.name);
                    let fv = match r[0] {
                        RecordValueModel::Value(fv) => fv,
                        RecordValueModel::Table(_) => FieldValueModel::Boolean(false),
                    };
                    let e = EntryModel { key: d.name, value: ElemModel::Setting(value_text(fv)) };
                    assert(find_key(t, d.name) == -1) by {
                        lemma_find_key_bounds(t, d.name);
                        if find_key(t, d.name) >= 0 {
                            assert(t[find_key(t, d.name)].key == d.name);
                            assert(t[find_key(t, d.name)].key != level_names(s)[0]);
                        }
                    }
                    let t2 = crate::tree::set_key(
                        t,
                        d.name,
                        ElemModel::Setting(value_text(fv)),
                    );
                    assert(t2 == t.push(e));
                    assert forall|j: int, i: int|
                        0 <= j < t2.len() && 0 <= i < level_names(sd).len() implies (
                    #[trigger] t2[j].key) != (#[trigger] level_names(sd)[i]) by {
                        assert(level_names(sd)[i] == level_names(s)[i + 1]);
                        if j < t.len() {
                            assert(t2[j].key == t[j].key);
                            assert(t[j].key != level_names(s)[i + 1]);
                        } else {
                            assert(t2[j] == e);
                            assert(level_names(s)[0] != level_names(s)[i + 1]);
                        }
                    }
                    lemma_settings_fold_is_tree_of(t2, sd, rd);
                    assert(tree_of(s, r) =~= seq![e] + tree_of(sd, rd));
                    assert(t.push(e) + tree_of(sd, rd) =~= t + tree_of(s, r));
                }
            },
            SchemaEntryModel::Section(_, _) => {
                assert(false);
            },
        }
    }
}

/// Law: serializing any record of a flat, well-named schema and parsing
/// the text back yields exactly the table tree the record stands for,
/// with no diagnostics and the table pointer still at the root.
pub proof fn lemma_serialize_parse_flat(s: Seq<SchemaEntryModel>, r: Seq<RecordValueModel>)
    requires
        safe_flat_schema(s),
        safe_flat_record(s, r),
        record_matches(s, r),
    ensures
        parse_text_model(serialize_model(s, r, ""@)).tree == tree_of(s, r),
        parse_text_model(serialize_model(s, r, ""@)).msgs == Seq::<Seq<char>>::empty(),
{
    let text = serialize_model(s, r, ""@);
    lemma_serialize_flat_unsplit(s, r, ""@);
    let lines = lines_of_flat(s, r);
    assert forall|i: int|
        0 <= i < lines.len() implies !crate::text::contains_char(#[trigger] lines[i], '\n') by {
        lemma_lines_of_flat_no_newline(s, r, i);
    }
    lemma_split_unsplit(lines);
    let init = crate::tree::initial_parse_state();
    lemma_parse_lines_append(init, lines, seq![Seq::<char>::empty()], 0);
    lemma_parse_flat_lines(s, r, init, 0);
    let mid = ParseState { tree: settings_fold(init.tree, s, r), path: init.path, msgs: init.msgs };
    assert(parse_lines_model(mid, seq![Seq::<char>::empty()], lines.len() as int) == mid) by {
        let el = Seq::<char>::empty();
        assert(crate::text::trim_spec(el).len() == 0);
        assert(parse_line_model(mid, el, lines.len() as int) == mid);
        assert(seq![el][0] == el);
        assert(seq![el].drop_first() =~= Seq::<Seq<char>>::empty());
        assert(parse_lines_model(mid, Seq::<Seq<char>>::empty(), lines.len() as int + 1) == mid);
        assert(parse_lines_model(mid, seq![el], lines.len() as int) == parse_lines_model(
            parse_line_model(mid, el, lines.len() as int),
            seq![el].drop_first(),
            lines.len() as int + 1,
        ));
    }
    assert forall|j: int, i: int|
        0 <= j < init.tree.len() && 0 <= i < level_names(s).len() implies (
    #[trigger] init.tree[j].key) != (#[trigger] level_names(s)[i]) by {}
    lemma_settings_fold_is_tree_of(init.tree, s, r);
    assert(init.tree + tree_of(s, r) =~= tree_of(s, r));
}

proof fn lemma_lines_of_flat_no_newline(
    s: Seq<SchemaEntryModel>,
    r: Seq<RecordValueModel>,
    i: int,
)
    requires
        safe_flat_schema(s),
        safe_flat_record(s, r),
        r.len() == s.len(),
        0 <= i < lines_of_flat(s, r).len(),
    ensures
        !crate::text::contains_char(lines_of_flat(s, r)[i], '\n'),
    decreases s,
{
    reveal_strlit("#");
    reveal_strlit(" = ");
    if s.len() > 0 {
        let sd = s.drop_first();
        let rd = r.drop_first();
        assert forall|k: int| 0 <= k < sd.len() implies (#[trigger] sd[k]) is Scalar by {
            assert(sd[k] == s[k + 1]);
        }
        assert forall|k: int|
            0 <= k < sd.len() implies match #[trigger] sd[k] {
            SchemaEntryModel::Scalar(d) => safe_key(d.name) && (match d.comment {
                Some(c) => !crate::text::contains_char(c, '\n'),
                None => true,
            }),
            SchemaEntryModel::Section(_, _) => true,
        } by {
            assert(sd[k] == s[k + 1]);
        }
        lemma_level_names_shape(s);
        let off = level_names(s).len() - level_names(sd).len();
        assert forall|a: int, b: int|
            0 <= a < b < level_names(sd).len() implies level_names(sd)[a] != level_names(
            sd,
        )[b] by {
            assert(level_names(sd)[a] == level_names(s)[a + off]);
            assert(level_names(sd)[b] == level_names(s)[b + off]);
        }
        assert forall|k: int|
            0 <= k < sd.len() implies match #[trigger] sd[k] {
            SchemaEntryModel::Scalar(d) => d.no_config || (match rd[k] {
                RecordValueModel::Value(FieldValueModel::Text(t)) => safe_value(t),
                _ => true,
            }),
            SchemaEntryModel::Section(_, _) => true,
        } by {
            assert(sd[k] == s[k + 1]);
            assert(rd[k] == r[k + 1]);
        }
        let head = match s[0] {
            SchemaEntryModel::Scalar(d) => if d.no_config {
                Seq::<Seq<char>>::empty()
            } else {
                (match d.comment {
                    Some(c) => seq!["#"@ + c],
                    None => Seq::<Seq<char>>::empty(),
                }) + seq![
                    d.name + " = "@ + value_text(
                        match r[0] {
                            RecordValueModel::Value(fv) => fv,
                            RecordValueModel::Table(_) => FieldValueModel::Boolean(false),
                        },
                    ),
                ]
            },
            SchemaEntryModel::Section(_, _) => Seq::<Seq<char>>::empty(),
        };
        if i < head.len() {
            match s[0] {
                SchemaEntryModel::Scalar(d) => {
                    let fv = match r[0] {
                        RecordValueModel::Value(fv) => fv,
                        RecordValueModel::Table(_) => FieldValueModel::Boolean(false),
                    };
                    let vt = value_text(fv);
                    assert(safe_value(vt)) by {
                        lemma_bool_text_safe();
                    }
                    let kv = d.name + " = "@ + vt;
                    assert(!crate::text::contains_char(kv, '\n')) by {
                        if crate::text::contains_char(kv, '\n') {
                            let k = choose|k: int| 0 <= k < kv.len() && kv[k] == '\n';
                            let nl = d.name.len() as int;
                            if k < nl {
                                assert(d.name[k] == '\n');
                                assert(crate::text::contains_char(d.name, '\n'));
                            } else if k < nl + 3 {
                                assert(" = "@[k - nl] == '\n');
                            } else {
                                assert(vt[k - nl - 3] == '\n');
                                assert(crate::text::contains_char(vt, '\n'));
                            }
                        }
                    }
                    match d.comment {
                        Some(c) => {
                            if i == 0 {
                                assert(lines_of_flat(s, r)[0] == "#"@ + c);
                                assert(!crate::text::contains_char("#"@ + c, '\n')) by {
                                    if crate::text::contains_char("#"@ + c, '\n') {
                                        let k = choose|k: int|
                                            0 <= k < ("#"@ + c).len() && ("#"@ + c)[k] == '\n';
                                        if k == 0 {
                                            assert("#"@[0] == '\n');
                                        } else {
                                            assert(c[k - 1] == '\n');
                                            assert(crate::text::contains_char(c, '\n'));
                                        }
                                    }
                                }
                            } else {
                                assert(lines_of_flat(s, r)[1] == kv);
                            }
                        },
                        None => {
                            assert(lines_of_flat(s, r)[0] == kv);
                        },
                    }
                },
                SchemaEntryModel::Section(_, _) => {
                    assert(false);
                },
            }
        } else {
            assert(lines_of_flat(s, r)[i] == lines_of_flat(sd, rd)[i - head.len()]);
            lemma_lines_of_flat_no_newline(sd, rd, i - head.len());
        }
    }
}

/// Law: the full round trip for a flat schema. Serializing any safe,
/// fully-populated record, parsing the text back, and binding the parsed
/// tree against the schema starting from any record that agrees on the
/// `no_config` fields yields exactly the original record, with empty
/// parse diagnostics and empty binding diagnostics.
pub proof fn lemma_serialize_parse_bind_round_trip(
    s: Seq<SchemaEntryModel>,
    start: Seq<RecordValueModel>,
    r: Seq<RecordValueModel>,
)
    requires
        safe_flat_schema(s),
        safe_flat_record(s, r),
        record_matches(s, start),
        record_matches(s, r),
        agrees_on_no_config(s, start, r),
    ensures
        parse_text_model(serialize_model(s, r, ""@)).msgs == Seq::<Seq<char>>::empty(),
        bind_record_model(s, start, parse_text_model(serialize_model(s, r, ""@)).tree).0 == r,
        bind_record_model(s, start, parse_text_model(serialize_model(s, r, ""@)).tree).1
            == Seq::<Seq<char>>::empty(),
{
    lemma_serialize_parse_flat(s, r);
    lemma_bind_round_trip(s, start, r);
}

/// The nested table of a tree element, empty for a setting.
pub open spec fn nested_of(v: ElemModel) -> Seq<EntryModel> {
    match v {
        ElemModel::Nested(t) => t,
        ElemModel::Setting(_) => Seq::<EntryModel>::empty(),
    }
}

/// The table of a record slot, empty for a scalar.
pub open spec fn table_of_slot(v: RecordValueModel) -> Seq<RecordValueModel> {
    match v {
        RecordValueModel::Table(t) => t,
        RecordValueModel::Value(_) => Seq::<RecordValueModel>::empty(),
    }
}

/// The name of a section entry, empty for a scalar.
pub open spec fn section_name(e: SchemaEntryModel) -> Seq<char> {
    match e {
        SchemaEntryModel::Section(name, _) => name,
        SchemaEntryModel::Scalar(d) => d.name,
    }
}

/// Whether the schema holds sections only, as the whole configuration
/// does at its top level.
pub open spec fn sectioned(s: Seq<SchemaEntryModel>) -> bool {
    forall|i: int| 0 <= i < s.len() ==> (#[trigger] s[i]) is Section
}

/// Whether a sectioned schema survives one serialize/parse trip: every
/// section name is safe, distinct from the others, and carries a safe
/// flat schema.
pub open spec fn safe_sectioned_schema(s: Seq<SchemaEntryModel>) -> bool {
    sectioned(s) && (forall|i: int|
        0 <= i < s.len() ==> match #[trigger] s[i] {
            SchemaEntryModel::Section(name, sub) => crate::tree::safe_section_name(name)
                && safe_flat_schema(sub),
            SchemaEntryModel::Scalar(_) => true,
        }) && (forall|i: int, j: int|
        0 <= i < j < level_names(s).len() ==> level_names(s)[i] != level_names(s)[j])
}

/// Whether a sectioned record's text values survive one trip.
pub open spec fn safe_sectioned_record(s: Seq<SchemaEntryModel>, r: Seq<RecordValueModel>) -> bool {
    forall|i: int|
        0 <= i < s.len() ==> match #[trigger] s[i] {
            SchemaEntryModel::Section(_, sub) => safe_flat_record(sub, table_of_slot(r[i])),
            SchemaEntryModel::Scalar(_) => true,
        }
}

/// The serialized form of a sectioned schema as a list of lines: a blank
/// line, a header, and the section's flat lines, per section.
pub open spec fn lines_of_sectioned(s: Seq<SchemaEntryModel>, r: Seq<RecordValueModel>) -> Seq<
    Seq<char>,
>
    decreases s,
{
    if s.len() == 0 {
        Seq::<Seq<char>>::empty()
    } else {
        (match s[0] {
            SchemaEntryModel::Section(name, sub) => seq![
                Seq::<char>::empty(),
                "["@ + name + "]"@,
            ] + lines_of_flat(sub, table_of_slot(r[0])),
            SchemaEntryModel::Scalar(_) => Seq::<Seq<char>>::empty(),
        }) + lines_of_sectioned(s.drop_first(), r.drop_first())
    }
}

/// Gluing distributes over concatenation of line lists.
proof fn lemma_unsplit_append(a: Seq<Seq<char>>, b: Seq<Seq<char>>)
    ensures
        unsplit_lines(a + b) == unsplit_lines(a) + unsplit_lines(b),
    decreases a.len(),
{
    if a.len() == 0 {
        assert(a + b =~= b);
        assert(unsplit_lines(a) + unsplit_lines(b) =~= unsplit_lines(b));
    } else {
        assert((a + b)[0] == a[0]);
        assert((a + b).drop_first() =~= a.drop_first() + b);
        lemma_unsplit_append(a.drop_first(), b);
        assert(unsplit_lines(a + b) =~= unsplit_lines(a) + unsplit_lines(b));
    }
}

/// A sectioned schema serializes to exactly its lines, `\n`-terminated.
proof fn lemma_serialize_sectioned_unsplit(s: Seq<SchemaEntryModel>, r: Seq<RecordValueModel>)
    requires
        safe_sectioned_schema(s),
        record_matches(s, r),
    ensures
        serialize_model(s, r, ""@) == unsplit_lines(lines_of_sectioned(s, r)),
    decreases s,
{
    reveal_strlit("");
    reveal_strlit("\n");
    reveal_strlit("[");
    reveal_strlit("]");
    reveal_strlit("\n[");
    reveal_strlit("]\n");
    if s.len() == 0 {
    } else {
        let sd = s.drop_first();
        let rd = r.drop_first();
        assert(s[0] is Section);
        assert(record_slot_matches(s[0], r[0]));
        assert forall|i: int| 0 <= i < sd.len() implies (#[trigger] sd[i]) is Section
            && record_slot_matches(sd[i], rd[i]) by {
            assert(sd[i] == s[i + 1]);
            assert(rd[i] == r[i + 1]);
        }
        assert forall|i: int|
            0 <= i < sd.len() implies match #[trigger] sd[i] {
            SchemaEntryModel::Section(name, sub) => crate::tree::safe_section_name(name)
                && safe_flat_schema(sub),
            SchemaEntryModel::Scalar(_) => true,
        } by {
            assert(sd[i] == s[i + 1]);
        }
        lemma_level_names_shape(s);
        let off = level_names(s).len() - level_names(sd).len();
        assert forall|i: int, j: int|
            0 <= i < j < level_names(sd).len() implies level_names(sd)[i] != level_names(
            sd,
        )[j] by {
            assert(level_names(sd)[i] == level_names(s)[i + off]);
            assert(level_names(sd)[j] == level_names(s)[j + off]);
        }
        lemma_serialize_sectioned_unsplit(sd, rd);
        assert(serialize_model(s, r, ""@) == entry_text(s[0], r[0], ""@) + serialize_model(
            sd,
            rd,
            ""@,
        ));
        match s[0] {
            SchemaEntryModel::Section(name, sub) => {
                let t = table_of_slot(r[0]);
                assert(record_matches(sub, t));
                assert(path_text(""@, name) == name);
                lemma_serialize_flat_unsplit(sub, t, name);
                assert(entry_text(s[0], r[0], ""@) == "\n["@ + name + "]\n"@ + serialize_model(
                    sub,
                    t,
                    name,
                ));
                let head_lines = seq![Seq::<char>::empty(), "["@ + name + "]"@];
                let body_lines = lines_of_flat(sub, t);
                assert(lines_of_sectioned(s, r) =~= (head_lines + body_lines)
                    + lines_of_sectioned(sd, rd));
                lemma_unsplit_append(head_lines + body_lines, lines_of_sectioned(sd, rd));
                lemma_unsplit_append(head_lines, body_lines);
                assert(unsplit_lines(head_lines) =~= seq!['\n'] + ("["@ + name + "]"@)
                    + seq!['\n']) by {
                    reveal_with_fuel(unsplit_lines, 3);
                    assert(head_lines[0] == Seq::<char>::empty());
                    assert(head_lines.drop_first() =~= seq!["["@ + name + "]"@]);
                    assert(head_lines.drop_first().drop_first() =~= Seq::<Seq<char>>::empty());
                }
                assert(serialize_model(s, r, ""@) =~= unsplit_lines(lines_of_sectioned(s, r)));
            },
            SchemaEntryModel::Scalar(_) => {
                assert(false);
            },
        }
    }
}

/// Parsing flat lines while the table pointer stands inside one section
/// writes the settings into that section's table and nothing else.
proof fn lemma_parse_flat_lines_in_section(
    s: Seq<SchemaEntryModel>,
    r: Seq<RecordValueModel>,
    st: ParseState,
    n: int,
    name: Seq<char>,
    fi: int,
)
    requires
        safe_flat_schema(s),
        safe_flat_record(s, r),
        r.len() == s.len(),
        st.path == seq![name],
        0 <= fi < st.tree.len(),
        find_key(st.tree, name) == fi,
        st.tree[fi].value is Nested,
    ensures
        parse_lines_model(st, lines_of_flat(s, r), n) == (ParseState {
            tree: st.tree.update(
                fi,
                EntryModel {
                    key: name,
                    value: ElemModel::Nested(settings_fold(nested_of(st.tree[fi].value), s, r)),
                },
            ),
            path: st.path,
            msgs: st.msgs,
        }),
    decreases s,
{
    lemma_find_key_bounds(st.tree, name);
    assert(st.tree[fi].key == name);
    if s.len() == 0 {
        assert(st.tree.update(
            fi,
            EntryModel { key: name, value: ElemModel::Nested(nested_of(st.tree[fi].value)) },
        ) =~= st.tree);
        assert(st =~= (ParseState {
            tree: st.tree.update(
                fi,
                EntryModel {
                    key: name,
                    value: ElemModel::Nested(settings_fold(nested_of(st.tree[fi].value), s, r)),
                },
            ),
            path: st.path,
            msgs: st.msgs,
        }));
    } else {
        let sd = s.drop_first();
        let rd = r.drop_first();
        assert forall|i: int| 0 <= i < sd.len() implies (#[trigger] sd[i]) is Scalar by {
            assert(sd[i] == s[i + 1]);
        }
        assert forall|i: int|
            0 <= i < sd.len() implies match #[trigger] sd[i] {
            SchemaEntryModel::Scalar(d) => safe_key(d.name) && (match d.comment {
                Some(c) => !crate::text::contains_char(c, '\n'),
                None => true,
            }),
            SchemaEntryModel::Section(_, _) => true,
        } by {
            assert(sd[i] == s[i + 1]);
        }
        lemma_level_names_shape(s);
        let off = level_names(s).len() - level_names(sd).len();
        assert forall|i: int, j: int|
            0 <= i < j < level_names(sd).len() implies level_names(sd)[i] != level_names(
            sd,
        )[j] by {
            assert(level_names(sd)[i] == level_names(s)[i + off]);
            assert(level_names(sd)[j] == level_names(s)[j + off]);
        }
        assert forall|i: int|
            0 <= i < sd.len() implies match #[trigger] sd[i] {
            SchemaEntryModel::Scalar(d) => d.no_config || (match rd[i] {
                RecordValueModel::Value(FieldValueModel::Text(t)) => safe_value(t),
                _ => true,
            }),
            SchemaEntryModel::Section(_, _) => true,
        } by {
            assert(sd[i] == s[i + 1]);
            assert(rd[i] == r[i + 1]);
        }
        let nsub = nested_of(st.tree[fi].value);
        match s[0] {
            SchemaEntryModel::Scalar(d) => {
                if d.no_config {
                    assert(lines_of_flat(s, r) =~= lines_of_flat(sd, rd));
                    lemma_parse_flat_lines_in_section(sd, rd, st, n, name, fi);
                    assert(settings_fold(nsub, s, r) == settings_fold(nsub, sd, rd));
                } else {
                    let fv = match r[0] {
                        RecordValueModel::Value(fv) => fv,
                        RecordValueModel::Table(_) => FieldValueModel::Boolean(false),
                    };
                    let vt = value_text(fv);
                    assert(safe_value(vt)) by {
                        lemma_bool_text_safe();
                    }
                    let kv = d.name + " = "@ + vt;
                    let inner2 = crate::tree::set_key(nsub, d.name, ElemModel::Setting(vt));
                    let e2 = EntryModel { key: name, value: ElemModel::Nested(inner2) };
                    let t2 = st.tree.update(fi, e2);
                    assert forall|j: int|
                        0 <= j < st.tree.len() implies (#[trigger] st.tree[j]).key
                        == t2[j].key by {}
                    crate::tree::lemma_find_key_same_keys(st.tree, t2, name);
                    match d.comment {
                        Some(c) => {
                            let lines = lines_of_flat(s, r);
                            assert(lines =~= seq!["#"@ + c, kv] + lines_of_flat(sd, rd));
                            assert(lines[0] == "#"@ + c);
                            lemma_parse_comment_line(st, c, n);
                            let st1 = parse_line_model(st, lines[0], n);
                            assert(st1 == st);
                            assert(parse_lines_model(st, lines, n) == parse_lines_model(
                                st1,
                                lines.drop_first(),
                                n + 1,
                            ));
                            assert(lines.drop_first() =~= seq![kv] + lines_of_flat(sd, rd));
                            assert(lines.drop_first()[0] == kv);
                            lemma_parse_kv_line(st1, d.name, vt, n + 1);
                            let st2 = parse_line_model(st1, kv, n + 1);
                            assert(st2.tree == crate::tree::insert_at_path_model(
                                st.tree,
                                seq![name],
                                0,
                                d.name,
                                vt,
                            ));
                            assert(st2.tree == t2) by {
                                assert(crate::tree::insert_at_path_model(
                                    nsub,
                                    seq![name],
                                    1,
                                    d.name,
                                    vt,
                                ) == inner2);
                            }
                            assert(st2.path == st.path && st2.msgs == st.msgs);
                            assert(parse_lines_model(st1, lines.drop_first(), n + 1)
                                == parse_lines_model(
                                st2,
                                lines.drop_first().drop_first(),
                                n + 2,
                            ));
                            assert(lines.drop_first().drop_first() =~= lines_of_flat(sd, rd));
                            lemma_parse_flat_lines_in_section(sd, rd, st2, n + 2, name, fi);
                            assert(nested_of(st2.tree[fi].value) == inner2);
                            assert(settings_fold(nsub, s, r) == settings_fold(inner2, sd, rd));
                            assert(st2.tree.update(
                                fi,
                                EntryModel {
                                    key: name,
                                    value: ElemModel::Nested(settings_fold(inner2, sd, rd)),
                                },
                            ) =~= st.tree.update(
                                fi,
                                EntryModel {
                                    key: name,
                                    value: ElemModel::Nested(settings_fold(nsub, s, r)),
                                },
                            ));
                        },
                        None => {
                            let lines = lines_of_flat(s, r);
                            assert(lines =~= seq![kv] + lines_of_flat(sd, rd));
                            assert(lines[0] == kv);
                            lemma_parse_kv_line(st, d.name, vt, n);
                            let st2 = parse_line_model(st, lines[0], n);
                            assert(st2.tree == crate::tree::insert_at_path_model(
                                st.tree,
                                seq![name],
                                0,
                                d.name,
                                vt,
                            ));
                            assert(st2.tree == t2) by {
                                assert(crate::tree::insert_at_path_model(
                                    nsub,
                                    seq![name],
                                    1,
                                    d.name,
                                    vt,
                                ) == inner2);
                            }
                            assert(st2.path == st.path && st2.msgs == st.msgs);
                            assert(parse_lines_model(st, lines, n) == parse_lines_model(
                                st2,
                                lines.drop_first(),
                                n + 1,
                            ));
                            assert(lines.drop_first() =~= lines_of_flat(sd, rd));
                            lemma_parse_flat_lines_in_section(sd, rd, st2, n + 1, name, fi);
                            assert(nested_of(st2.tree[fi].value) == inner2);
                            assert(settings_fold(nsub, s, r) == settings_fold(inner2, sd, rd));
                            assert(st2.tree.update(
                                fi,
                                EntryModel {
                                    key: name,
                                    value: ElemModel::Nested(settings_fold(inner2, sd, rd)),
                                },
                            ) =~= st.tree.update(
                                fi,
                                EntryModel {
                                    key: name,
                                    value: ElemModel::Nested(settings_fold(nsub, s, r)),
                                },
                            ));
                        },
                    }
                }
            },
            SchemaEntryModel::Section(_, _) => {
                assert(false);
            },
        }
    }
}

/// The table pointer after parsing a run of sections: at the last
/// section opened, or where it already stood when there is none.
pub open spec fn end_path(s: Seq<SchemaEntryModel>, p0: Seq<Seq<char>>) -> Seq<Seq<char>>
    decreases s,
{
    if s.len() == 0 {
        p0
    } else {
        end_path(s.drop_first(), seq![section_name(s[0])])
    }
}

/// Parsing the serialized lines of a sectioned schema appends exactly the
/// tree the record stands for, with no diagnostics.
proof fn lemma_parse_sectioned_lines(
    s: Seq<SchemaEntryModel>,
    r: Seq<RecordValueModel>,
    st: ParseState,
    n: int,
)
    requires
        safe_sectioned_schema(s),
        safe_sectioned_record(s, r),
        record_matches(s, r),
        forall|j: int, i: int|
            0 <= j < st.tree.len() && 0 <= i < level_names(s).len() ==> (#[trigger] st.tree[j].key)
                != (#[trigger] level_names(s)[i]),
    ensures
        parse_lines_model(st, lines_of_sectioned(s, r), n) == (ParseState {
            tree: st.tree + tree_of(s, r),
            path: end_path(s, st.path),
            msgs: st.msgs,
        }),
    decreases s,
{
    if s.len() == 0 {
        assert(st.tree + tree_of(s, r) =~= st.tree);
        assert(st =~= (ParseState {
            tree: st.tree + tree_of(s, r),
            path: end_path(s, st.path),
            msgs: st.msgs,
        }));
    } else {
        let sd = s.drop_first();
        let rd = r.drop_first();
        assert(s[0] is Section);
        assert(record_slot_matches(s[0], r[0]));
        assert forall|i: int| 0 <= i < sd.len() implies (#[trigger] sd[i]) is Section
            && record_slot_matches(sd[i], rd[i]) by {
            assert(sd[i] == s[i + 1]);
            assert(rd[i] == r[i + 1]);
        }
        assert forall|i: int|
            0 <= i < sd.len() implies match #[trigger] sd[i] {
            SchemaEntryModel::Section(name, sub) => crate::tree::safe_section_name(name)
                && safe_flat_schema(sub),
            SchemaEntryModel::Scalar(_) => true,
        } by {
            assert(sd[i] == s[i + 1]);
        }
        assert forall|i: int|
            0 <= i < sd.len() implies match #[trigger] sd[i] {
            SchemaEntryModel::Section(_, sub) => safe_flat_record(sub, table_of_slot(rd[i])),
            SchemaEntryModel::Scalar(_) => true,
        } by {
            assert(sd[i] == s[i + 1]);
            assert(rd[i] == r[i + 1]);
        }
        lemma_level_names_shape(s);
        let off = level_names(s).len() - level_names(sd).len();
        assert forall|i: int, j: int|
            0 <= i < j < level_names(sd).len() implies level_names(sd)[i] != level_names(
            sd,
        )[j] by {
            assert(level_names(sd)[i] == level_names(s)[i + off]);
            assert(level_names(sd)[j] == level_names(s)[j + off]);
        }
        match s[0] {
            SchemaEntryModel::Section(name, sub) => {
                assert(level_names(s) =~= seq![name] + level_names(sd));
                assert(level_names(s)[0] == name);
                let t = table_of_slot(r[0]);
                let lines = lines_of_sectioned(s, r);
                let head_lines = seq![Seq::<char>::empty(), "["@ + name + "]"@];
                let body = lines_of_flat(sub, t);
                assert(lines =~= (head_lines + body) + lines_of_sectioned(sd, rd));
                // the blank line before the header is skipped
                assert(lines[0] == Seq::<char>::empty());
                assert(crate::text::trim_spec(Seq::<char>::empty()).len() == 0);
                let st0 = parse_line_model(st, lines[0], n);
                assert(st0 == st);
                assert(parse_lines_model(st, lines, n) == parse_lines_model(
                    st0,
                    lines.drop_first(),
                    n + 1,
                ));
                // the header opens a fresh table and moves the pointer
                assert(find_key(st.tree, name) == -1) by {
                    lemma_find_key_bounds(st.tree, name);
                    if find_key(st.tree, name) >= 0 {
                        assert(st.tree[find_key(st.tree, name)].key == name);
                        assert(st.tree[find_key(st.tree, name)].key != level_names(s)[0]);
                    }
                }
                crate::tree::lemma_parse_header_line(st0, name, n + 1);
                assert(lines.drop_first()[0] == "["@ + name + "]"@);
                let st1 = parse_line_model(st0, lines.drop_first()[0], n + 1);
                let fresh = EntryModel {
                    key: name,
                    value: ElemModel::Nested(Seq::<EntryModel>::empty()),
                };
                assert(st1.tree == st.tree.push(fresh));
                assert(st1.path == seq![name] && st1.msgs == st.msgs);
                assert(parse_lines_model(st0, lines.drop_first(), n + 1) == parse_lines_model(
                    st1,
                    lines.drop_first().drop_first(),
                    n + 2,
                ));
                assert(lines.drop_first().drop_first() =~= body + lines_of_sectioned(sd, rd));
                lemma_parse_lines_append(st1, body, lines_of_sectioned(sd, rd), n + 2);
                // the body fills the fresh table
                let fi = st.tree.len() as int;
                crate::tree::lemma_find_key_push(st.tree, fresh, name);
                assert(find_key(st1.tree, name) == fi);
                assert(st1.tree[fi].value is Nested);
                lemma_parse_flat_lines_in_section(sub, t, st1, n + 2, name, fi);
                let filled = settings_fold(Seq::<EntryModel>::empty(), sub, t);
                let st2 = ParseState {
                    tree: st1.tree.update(
                        fi,
                        EntryModel { key: name, value: ElemModel::Nested(filled) },
                    ),
                    path: st1.path,
                    msgs: st1.msgs,
                };
                assert(parse_lines_model(st1, body, n + 2) == st2);
                assert(filled == tree_of(sub, t)) by {
                    lemma_settings_fold_is_tree_of(Seq::<EntryModel>::empty(), sub, t);
                    assert(Seq::<EntryModel>::empty() + tree_of(sub, t) =~= tree_of(sub, t));
                }
                let placed = EntryModel { key: name, value: ElemModel::Nested(tree_of(sub, t)) };
                assert(st2.tree =~= st.tree.push(placed));
                // the remaining sections follow by induction
                assert forall|j: int, i: int|
                    0 <= j < st2.tree.len() && 0 <= i < level_names(sd).len() implies (
                #[trigger] st2.tree[j].key) != (#[trigger] level_names(sd)[i]) by {
                    assert(level_names(sd)[i] == level_names(s)[i + 1]);
                    if j < st.tree.len() {
                        assert(st2.tree[j].key == st.tree[j].key);
                        assert(st.tree[j].key != level_names(s)[i + 1]);
                    } else {
                        assert(st2.tree[j].key == name);
                        assert(level_names(s)[0] != level_names(s)[i + 1]);
                    }
                }
                lemma_parse_sectioned_lines(sd, rd, st2, n + 2 + body.len() as int);
                assert(st2.tree + tree_of(sd, rd) =~= st.tree + tree_of(s, r)) by {
                    assert(tree_of(s, r) =~= seq![placed] + tree_of(sd, rd));
                }
                assert(end_path(sd, st2.path) == end_path(s, st.path));
            },
            SchemaEntryModel::Scalar(_) => {
                assert(false);
            },
        }
    }
}

proof fn lemma_lines_of_sectioned_no_newline(
    s: Seq<SchemaEntryModel>,
    r: Seq<RecordValueModel>,
    i: int,
)
    requires
        safe_sectioned_schema(s),
        safe_sectioned_record(s, r),
        record_matches(s, r),
        0 <= i < lines_of_sectioned(s, r).len(),
    ensures
        !crate::text::contains_char(lines_of_sectioned(s, r)[i], '\n'),
    decreases s,
{
    reveal_strlit("[");
    reveal_strlit("]");
    if s.len() > 0 {
        let sd = s.drop_first();
        let rd = r.drop_first();
        assert(s[0] is Section);
        assert(record_slot_matches(s[0], r[0]));
        assert forall|k: int| 0 <= k < sd.len() implies (#[trigger] sd[k]) is Section
            && record_slot_matches(sd[k], rd[k]) by {
            assert(sd[k] == s[k + 1]);
            assert(rd[k] == r[k + 1]);
        }
        assert forall|k: int|
            0 <= k < sd.len() implies match #[trigger] sd[k] {
            SchemaEntryModel::Section(name, sub) => crate::tree::safe_section_name(name)
                && safe_flat_schema(sub),
            SchemaEntryModel::Scalar(_) => true,
        } by {
            assert(sd[k] == s[k + 1]);
        }
        assert forall|k: int|
            0 <= k < sd.len() implies match #[trigger] sd[k] {
            SchemaEntryModel::Section(_, sub) => safe_flat_record(sub, table_of_slot(rd[k])),
            SchemaEntryModel::Scalar(_) => true,
        } by {
            assert(sd[k] == s[k + 1]);
            assert(rd[k] == r[k + 1]);
        }
        lemma_level_names_shape(s);
        let off = level_names(s).len() - level_names(sd).len();
        assert forall|a: int, b: int|
            0 <= a < b < level_names(sd).len() implies level_names(sd)[a] != level_names(
            sd,
        )[b] by {
            assert(level_names(sd)[a] == level_names(s)[a + off]);
            assert(level_names(sd)[b] == level_names(s)[b + off]);
        }
        match s[0] {
            SchemaEntryModel::Section(name, sub) => {
                let t = table_of_slot(r[0]);
                let head_lines = seq![Seq::<char>::empty(), "["@ + name + "]"@];
                let body = lines_of_flat(sub, t);
                assert(lines_of_sectioned(s, r) =~= (head_lines + body) + lines_of_sectioned(
                    sd,
                    rd,
                ));
                if i == 0 {
                    assert(lines_of_sectioned(s, r)[0] == Seq::<char>::empty());
                } else if i == 1 {
                    let hdr = "["@ + name + "]"@;
                    assert(lines_of_sectioned(s, r)[1] == hdr);
                    assert(!crate::text::contains_char(hdr, '\n')) by {
                        if crate::text::contains_char(hdr, '\n') {
                            let k = choose|k: int| 0 <= k < hdr.len() && hdr[k] == '\n';
                            if k == 0 {
                                assert("["@[0] == '\n');
                            } else if k < name.len() + 1 {
                                assert(name[k - 1] == '\n');
                            } else {
                                assert("]"@[0] == '\n');
                            }
                        }
                    }
                } else if i < 2 + body.len() {
                    assert(lines_of_sectioned(s, r)[i] == body[i - 2]);
                    assert(r.len() == s.len());
                    lemma_lines_of_flat_no_newline(sub, t, i - 2);
                } else {
                    assert(lines_of_sectioned(s, r)[i] == lines_of_sectioned(sd, rd)[i - 2
                        - body.len()]);
                    lemma_lines_of_sectioned_no_newline(sd, rd, i - 2 - body.len());
                }
            },
            SchemaEntryModel::Scalar(_) => {
                assert(false);
            },
        }
    }
}

/// Law: serializing any record of a sectioned schema of safe flat
/// sections - the shape of the whole configuration - and parsing the text
/// back yields exactly the table tree the record stands for, with no
/// diagnostics.
pub proof fn lemma_serialize_parse_sectioned(s: Seq<SchemaEntryModel>, r: Seq<RecordValueModel>)
    requires
        safe_sectioned_schema(s),
        safe_sectioned_record(s, r),
        record_matches(s, r),
    ensures
        parse_text_model(serialize_model(s, r, ""@)).tree == tree_of(s, r),
        parse_text_model(serialize_model(s, r, ""@)).msgs == Seq::<Seq<char>>::empty(),
{
    let text = serialize_model(s, r, ""@);
    lemma_serialize_sectioned_unsplit(s, r);
    let lines = lines_of_sectioned(s, r);
    assert forall|i: int|
        0 <= i < lines.len() implies !crate::text::contains_char(#[trigger] lines[i], '\n') by {
        lemma_lines_of_sectioned_no_newline(s, r, i);
    }
    lemma_split_unsplit(lines);
    let init = crate::tree::initial_parse_state();
    lemma_parse_lines_append(init, lines, seq![Seq::<char>::empty()], 0);
    assert forall|j: int, i: int|
        0 <= j < init.tree.len() && 0 <= i < level_names(s).len() implies (
    #[trigger] init.tree[j].key) != (#[trigger] level_names(s)[i]) by {}
    lemma_parse_sectioned_lines(s, r, init, 0);
    let mid = ParseState {
        tree: init.tree + tree_of(s, r),
        path: end_path(s, init.path),
        msgs: init.msgs,
    };
    assert(parse_lines_model(mid, seq![Seq::<char>::empty()], lines.len() as int) == mid) by {
        let el = Seq::<char>::empty();
        assert(crate::text::trim_spec(el).len() == 0);
        assert(parse_line_model(mid, el, lines.len() as int) == mid);
        assert(seq![el][0] == el);
        assert(seq![el].drop_first() =~= Seq::<Seq<char>>::empty());
        assert(parse_lines_model(mid, Seq::<Seq<char>>::empty(), lines.len() as int + 1) == mid);
        assert(parse_lines_model(mid, seq![el], lines.len() as int) == parse_lines_model(
            parse_line_model(mid, el, lines.len() as int),
            seq![el].drop_first(),
            lines.len() as int + 1,
        ));
    }
    assert(init.tree + tree_of(s, r) =~= tree_of(s, r));
}

/// Law: the full serialize/parse/bind round trip at the configuration's
/// own shape: a schema of safe flat sections. Serializing any safe,
/// fully-populated record, parsing the text back, and binding the parsed
/// tree against the schema starting from any record that agrees on the
/// `no_config` fields yields exactly the original record, with empty
/// parse diagnostics and empty binding diagnostics.
pub proof fn lemma_round_trip_sectioned(
    s: Seq<SchemaEntryModel>,
    start: Seq<RecordValueModel>,
    r: Seq<RecordValueModel>,
)
    requires
        safe_sectioned_schema(s),
        safe_sectioned_record(s, r),
        record_matches(s, start),
        record_matches(s, r),
        agrees_on_no_config(s, start, r),
    ensures
        parse_text_model(serialize_model(s, r, ""@)).msgs == Seq::<Seq<char>>::empty(),
        bind_record_model(s, start, parse_text_model(serialize_model(s, r, ""@)).tree).0 == r,
        bind_record_model(s, start, parse_text_model(serialize_model(s, r, ""@)).tree).1
            == Seq::<Seq<char>>::empty(),
{
    lemma_serialize_parse_sectioned(s, r);
    lemma_bind_round_trip(s, start, r);
}

/// For a schema of scalars none of which is `no_config`, the bound names
/// are exactly the field names, in order.
pub proof fn lemma_level_names_all_scalars(s: Seq<SchemaEntryModel>)
    requires
        forall|i: int|
            0 <= i < s.len() ==> match #[trigger] s[i] {
                SchemaEntryModel::Scalar(d) => !d.no_config,
                SchemaEntryModel::Section(_, _) => false,
            },
    ensures
        level_names(s).len() == s.len(),
        forall|i: int| 0 <= i < s.len() ==> #[trigger] level_names(s)[i] == section_name(s[i]),
    decreases s,
{
    if s.len() > 0 {
        let sd = s.drop_first();
        assert forall|i: int|
            0 <= i < sd.len() implies match #[trigger] sd[i] {
            SchemaEntryModel::Scalar(d) => !d.no_config,
            SchemaEntryModel::Section(_, _) => false,
        } by {
            assert(sd[i] == s[i + 1]);
        }
        lemma_level_names_all_scalars(sd);
        assert(s[0] is Scalar);
        assert forall|i: int| 0 <= i < s.len() implies #[trigger] level_names(s)[i]
            == section_name(s[i]) by {
            if i > 0 {
                assert(level_names(s)[i] == level_names(sd)[i - 1]);
                assert(sd[i - 1] == s[i]);
            }
        }
    }
}

/// For a schema of sections, the bound names are exactly the section
/// names, in order.
pub proof fn lemma_level_names_sections(s: Seq<SchemaEntryModel>)
    requires
        sectioned(s),
    ensures
        level_names(s).len() == s.len(),
        forall|i: int| 0 <= i < s.len() ==> #[trigger] level_names(s)[i] == section_name(s[i]),
    decreases s,
{
    if s.len() > 0 {
        let sd = s.drop_first();
        assert forall|i: int| 0 <= i < sd.len() implies (#[trigger] sd[i]) is Section by {
            assert(sd[i] == s[i + 1]);
        }
        lemma_level_names_sections(sd);
        assert(s[0] is Section);
        assert forall|i: int| 0 <= i < s.len() implies #[trigger] level_names(s)[i]
            == section_name(s[i]) by {
            if i > 0 {
                assert(level_names(s)[i] == level_names(sd)[i - 1]);
                assert(sd[i - 1] == s[i]);
            }
        }
    }
}

proof fn lemma_record_values_model_push(s: Seq<RecordValue>, x: RecordValue)
    ensures
        record_values_model(s.push(x)) == record_values_model(s).push(record_value_model(x)),
    decreases s,
{
    let t = s.push(x);
    lemma_record_values_model_len(s);
    lemma_record_values_model_len(t);
    if s.len() == 0 {
        assert(t[0] == x);
        assert(t.drop_first() =~= Seq::<RecordValue>::empty());
        assert(record_values_model(t) =~= record_values_model(s).push(record_value_model(x)));
    } else {
        assert(t[0] == s[0]);
        lemma_record_values_model_push(s.drop_first(), x);
        assert(t.drop_first() =~= s.drop_first().push(x));
        assert(record_values_model(t) =~= record_values_model(s).push(record_value_model(x)));
    }
}

/// Extending a taken prefix of the schema extends its default record.
proof fn lemma_default_record_take(s: Seq<SchemaEntryModel>, i: int)
    requires
        0 <= i < s.len(),
    ensures
        default_record_model(s.take(i + 1)) == default_record_model(s.take(i)).push(
            default_slot_model(s[i]),
        ),
    decreases i,
{
    if i == 0 {
        assert(s.take(1)[0] == s[0]);
        assert(s.take(1).drop_first() =~= Seq::<SchemaEntryModel>::empty());
        assert(s.take(0) =~= Seq::<SchemaEntryModel>::empty());
        assert(default_record_model(s.take(1)) =~= default_record_model(s.take(0)).push(
            default_slot_model(s[0]),
        ));
    } else {
        let d = s.drop_first();
        lemma_default_record_take(d, i - 1);
        assert(s.take(i + 1)[0] == s[0]);
        assert(s.take(i + 1).drop_first() =~= d.take(i));
        assert(s.take(i)[0] == s[0]);
        assert(s.take(i).drop_first() =~= d.take(i - 1));
        assert(d[i - 1] == s[i]);
        assert(default_record_model(s.take(i + 1)) =~= default_record_model(s.take(i)).push(
            default_slot_model(s[i]),
        ));
    }
}

} // verus!
