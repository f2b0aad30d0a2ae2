//! The table tree: the parser's output.
//!
//! A tree node is either a raw leaf value (`ConfigElement::Setting`) or a
//! sub-table (`ConfigElement::Nested`). Tables keep their entries in
//! insertion order; keys are unique within one table, and writing an
//! existing key replaces its value in place (last write wins).
//!
//! The mathematical model of a table is a sequence of key/value pairs
//! (`EntryModel`), looked up by first occurrence.

use vstd::prelude::*;

use crate::text::{
    append_dec, blank_char, contains_char, dec_str_of, index_of_char, is_blank_char,
    lemma_split_when_congruent, push_char, retain_nonempty, split_at_chars, split_when,
    str_contains_char, str_eq_str, str_index_of_char, trim_spec, trim_str,
};

verus! {

/// Model of one table entry: a key and the value standing under it.
pub struct EntryModel {
    pub key: Seq<char>,
    pub value: ElemModel,
}

/// Model of a table element: a leaf value or a sub-table.
pub enum ElemModel {
    Setting(Seq<char>),
    Nested(Seq<EntryModel>),
}

/// One entry of a table: a key and the element stored under it.
pub struct ConfigEntry {
    pub key: String,
    pub value: ConfigElement,
}

/// Element of a table: either a `String` for a setting or a nested table.
pub enum ConfigElement {
    Setting(String),
    Nested(ConfigMap),
}

/// A table of the configuration tree, in insertion order.
pub struct ConfigMap {
    pub entries: Vec<ConfigEntry>,
}

/// The model of a sequence of table entries.
pub open spec fn entries_model(s: Seq<ConfigEntry>) -> Seq<EntryModel>
    decreases s,
{
    if s.len() == 0 {
        Seq::<EntryModel>::empty()
    } else {
        seq![entry_model(s[0])] + entries_model(s.drop_first())
    }
}

/// The model of one table entry.
pub open spec fn entry_model(e: ConfigEntry) -> EntryModel
    decreases e,
{
    EntryModel { key: e.key@, value: elem_model(e.value) }
}

/// The model of one table element.
pub open spec fn elem_model(e: ConfigElement) -> ElemModel
    decreases e,
{
    match e {
        ConfigElement::Setting(s) => ElemModel::Setting(s@),
        ConfigElement::Nested(m) => ElemModel::Nested(entries_model(m.entries@)),
    }
}

impl View for ConfigMap {
    type V = Seq<EntryModel>;

    open spec fn view(&self) -> Seq<EntryModel> {
        entries_model(self.entries@)
    }
}

impl View for ConfigElement {
    type V = ElemModel;

    open spec fn view(&self) -> ElemModel {
        elem_model(*self)
    }
}

pub broadcast proof fn lemma_entries_model_len(s: Seq<ConfigEntry>)
    ensures
        (#[trigger] entries_model(s)).len() == s.len(),
    decreases s,
{
    if s.len() > 0 {
        lemma_entries_model_len(s.drop_first());
    }
}

pub broadcast proof fn lemma_entries_model_index(s: Seq<ConfigEntry>, i: int)
    requires
        0 <= i < s.len(),
    ensures
        #[trigger] entries_model(s)[i] == entry_model(s[i]),
    decreases s,
{
    lemma_entries_model_len(s);
    if i > 0 {
        lemma_entries_model_index(s.drop_first(), i - 1);
    }
}

/// The index of the first entry with the given key, or `-1` if absent.
pub open spec fn find_key(m: Seq<EntryModel>, key: Seq<char>) -> int
    decreases m.len(),
{
    if m.len() == 0 {
        -1
    } else if m[0].key == key {
        0
    } else {
        let r = find_key(m.drop_first(), key);
        if r == -1 {
            -1
        } else {
            r + 1
        }
    }
}

/// Whether the table holds an entry with the given key.
pub open spec fn has_key(m: Seq<EntryModel>, key: Seq<char>) -> bool {
    find_key(m, key) >= 0
}

/// The value under the given key (only meaningful when `has_key`).
pub open spec fn key_value(m: Seq<EntryModel>, key: Seq<char>) -> ElemModel {
    m[find_key(m, key)].value
}

/// Writes `value` under `key`: replaces the first entry with that key in
/// place, or appends a new entry at the end.
pub open spec fn set_key(m: Seq<EntryModel>, key: Seq<char>, value: ElemModel) -> Seq<EntryModel> {
    let i = find_key(m, key);
    if i >= 0 {
        m.update(i, EntryModel { key: key, value: value })
    } else {
        m.push(EntryModel { key: key, value: value })
    }
}

/// Removes the first entry with the given key, if any.
pub open spec fn remove_key(m: Seq<EntryModel>, key: Seq<char>) -> Seq<EntryModel> {
    let i = find_key(m, key);
    if i >= 0 {
        m.remove(i)
    } else {
        m
    }
}

pub broadcast proof fn lemma_find_key_bounds(m: Seq<EntryModel>, key: Seq<char>)
    ensures
        -1 <= #[trigger] find_key(m, key) < m.len(),
        find_key(m, key) >= 0 ==> m[find_key(m, key)].key == key,
        find_key(m, key) >= 0 ==> forall|j: int|
            0 <= j < find_key(m, key) ==> m[j].key != key,
        find_key(m, key) == -1 ==> forall|j: int| 0 <= j < m.len() ==> m[j].key != key,
    decreases m.len(),
{
    if m.len() > 0 && m[0].key != key {
        let d = m.drop_first();
        lemma_find_key_bounds(d, key);
        if find_key(m, key) >= 0 {
            assert forall|j: int| 0 <= j < find_key(m, key) implies m[j].key != key by {
                if j > 0 {
                    assert(m[j] == d[j - 1]);
                }
            }
        } else {
            assert forall|j: int| 0 <= j < m.len() implies m[j].key != key by {
                if j > 0 {
                    assert(m[j] == d[j - 1]);
                }
            }
        }
    }
}

impl ConfigMap {
    /// Creates an empty table.
    pub fn new() -> (r: ConfigMap)
        ensures
            r@ == Seq::<EntryModel>::empty(),
    {
        ConfigMap { entries: Vec::new() }
    }

    /// The number of entries in this table.
    pub fn len(&self) -> (r: usize)
        ensures
            r == self@.len(),
    {
        proof {
            lemma_entries_model_len(self.entries@);
        }
        self.entries.len()
    }

    /// The index of the first entry with the given key.
    fn find_index(&self, key: &str) -> (r: Option<usize>)
        ensures
            match r {
                Some(i) => 0 <= i < self@.len() && i == find_key(self@, key@),
                None => find_key(self@, key@) == -1,
            },
    {
        proof {
            lemma_entries_model_len(self.entries@);
        }
        let n = self.entries.len();
        let mut i: usize = 0;
        while i < n
            invariant
                n == self.entries@.len(),
                0 <= i <= n,
                forall|j: int| 0 <= j < i ==> entries_model(self.entries@)[j].key != key@,
            decreases n - i,
        {
            proof {
                lemma_entries_model_index(self.entries@, i as int);
            }
            if str_eq_str(self.entries[i].key.as_str(), key) {
                proof {
                    lemma_entries_model_len(self.entries@);
                    lemma_find_key_bounds(self@, key@);
                    if find_key(self@, key@) != i as int {
                        assert(self@[i as int].key == key@);
                    }
                }
                return Some(i);
            }
            i = i + 1;
        }
        proof {
            lemma_entries_model_len(self.entries@);
            lemma_find_key_bounds(self@, key@);
            if find_key(self@, key@) >= 0 {
                assert(self@[find_key(self@, key@)].key == key@);
            }
        }
        None
    }

    /// Writes `value` under `key`, replacing an existing entry in place or
    /// appending a new one (last write wins).
    pub fn set(&mut self, key: String, value: ConfigElement)
        ensures
            final(self)@ == set_key(old(self)@, key@, elem_model(value)),
    {
        proof {
            lemma_entries_model_len(self.entries@);
        }
        let ghost key_view = key@;
        let idx = self.find_index(key.as_str());
        match idx {
            Some(i) => {
                let e = ConfigEntry { key: key, value: value };
                let ghost ev = e;
                self.entries.remove(i);
                self.entries.insert(i, e);
                proof {
                    assert(self.entries@ =~= old(self).entries@.update(i as int, ev));
                    lemma_entries_update(old(self).entries@, i as int, ev);
                }
            },
            None => {
                let e = ConfigEntry { key: key, value: value };
                let ghost ev = e;
                self.entries.push(e);
                proof {
                    lemma_entries_push(old(self).entries@, ev);
                }
            },
        }
    }

    /// Removes and returns the element under `key`, if present.
    pub fn remove_entry(&mut self, key: &str) -> (r: Option<ConfigElement>)
        ensures
            final(self)@ == remove_key(old(self)@, key@),
            match r {
                Some(v) => has_key(old(self)@, key@) && elem_model(v) == key_value(
                    old(self)@,
                    key@,
                ),
                None => !has_key(old(self)@, key@),
            },
    {
        let idx = self.find_index(key);
        match idx {
            Some(i) => {
                proof {
                    lemma_entries_model_len(self.entries@);
                }
                let e = self.entries.remove(i);
                proof {
                    lemma_entries_remove(old(self).entries@, i as int);
                    lemma_entries_model_index(old(self).entries@, i as int);
                }
                Some(e.value)
            },
            None => None,
        }
    }

    /// The keys of this table, in entry order.
    pub fn key_list(&self) -> (r: Vec<String>)
        ensures
            r@.len() == self@.len(),
            forall|i: int| 0 <= i < r@.len() ==> r@.map_values(|k: String| k@)[i] == self@[i].key,
    {
        proof {
            lemma_entries_model_len(self.entries@);
        }
        let n = self.entries.len();
        let mut r: Vec<String> = Vec::new();
        let mut i: usize = 0;
        while i < n
            invariant
                n == self.entries@.len(),
                0 <= i <= n,
                r@.len() == i,
                forall|j: int|
                    0 <= j < i ==> r@.map_values(|k: String| k@)[j] == entries_model(
                        self.entries@,
                    )[j].key,
            decreases n - i,
        {
            let k = self.entries[i].key.as_str().to_owned();
            r.push(k);
            proof {
                lemma_entries_model_index(self.entries@, i as int);
                assert(r@.map_values(|k: String| k@) =~= r@.drop_last().map_values(
                    |k: String| k@,
                ).push(self.entries@[i as int].key@));
            }
            i = i + 1;
        }
        r
    }
}

proof fn lemma_entries_push(s: Seq<ConfigEntry>, x: ConfigEntry)
    ensures
        entries_model(s.push(x)) == entries_model(s).push(entry_model(x)),
    decreases s.len(),
{
    lemma_entries_model_len(s);
    let t = s.push(x);
    lemma_entries_model_len(t);
    if s.len() == 0 {
        assert(t[0] == x);
        assert(t.drop_first() =~= Seq::<ConfigEntry>::empty());
        assert(entries_model(t) =~= entries_model(s).push(entry_model(x)));
    } else {
        assert(t[0] == s[0]);
        lemma_entries_push(s.drop_first(), x);
        assert(t.drop_first() =~= s.drop_first().push(x));
        assert(entries_model(t) =~= entries_model(s).push(entry_model(x)));
    }
}

proof fn lemma_entries_remove(s: Seq<ConfigEntry>, i: int)
    requires
        0 <= i < s.len(),
    ensures
        entries_model(s.remove(i)) == entries_model(s).remove(i),
    decreases s.len(),
{
    lemma_entries_model_len(s);
    let t = s.remove(i);
    lemma_entries_model_len(t);
    if i == 0 {
        assert(t =~= s.drop_first());
        assert(entries_model(s).remove(0) =~= entries_model(s).drop_first());
        assert(entries_model(s).drop_first() =~= entries_model(s.drop_first()));
    } else {
        assert(t[0] == s[0]);
        lemma_entries_remove(s.drop_first(), i - 1);
        assert(t.drop_first() =~= s.drop_first().remove(i - 1));
        assert(entries_model(t) =~= seq![entry_model(t[0])] + entries_model(t.drop_first()));
        assert(entries_model(t) =~= entries_model(s).remove(i));
    }
}

/// Whether the character is a single or double quote.
pub open spec fn is_quote(c: char) -> bool {
    c == '"' || c == '\''
}

/// The value with every quote character deleted, wherever it stands.
pub open spec fn strip_quotes(s: Seq<char>) -> Seq<char>
    decreases s.len(),
{
    if s.len() == 0 {
        s
    } else if is_quote(s.last())  {
        strip_quotes(s.drop_last())
    } else {
        strip_quotes(s.drop_last()).push(s.last())
    }
}

/// Whether the character separates header path segments.
pub open spec fn is_header_sep(c: char) -> bool {
    c == '.' || c == '[' || c == ']'
}

/// The dotted path of a table header: the bracket-stripped header split on
/// `.`, each segment trimmed, empty segments discarded.
pub open spec fn header_tokens(l: Seq<char>) -> Seq<Seq<char>> {
    retain_nonempty(
        split_when(l, |c: char| is_header_sep(c)).map_values(|t: Seq<char>| trim_spec(t)),
    )
}

/// The line truncated at the first `#` that stands outside single and
/// double quotes, scanning from position `i` with the given quote states.
pub open spec fn strip_comment_from(s: Seq<char>, i: int, sq: bool, dq: bool) -> Seq<char>
    decreases s.len() - i,
{
    if i < 0 || i >= s.len() {
        s
    } else if s[i] == '\'' {
        strip_comment_from(s, i + 1, !sq, dq)
    } else if s[i] == '"' {
        strip_comment_from(s, i + 1, sq, !dq)
    } else if s[i] == '#' && !sq && !dq {
        s.subrange(0, i)
    } else {
        strip_comment_from(s, i + 1, sq, dq)
    }
}

/// The line truncated at its first unquoted `#`, if any.
pub open spec fn strip_comment(s: Seq<char>) -> Seq<char> {
    strip_comment_from(s, 0, false, false)
}

/// Walks `path` from table `m` starting at segment `i`, creating missing
/// tables along the way. Returns the updated table and `-1`, or, when a
/// segment collides with an existing setting, the unchanged table and the
/// index of the colliding segment.
pub open spec fn create_path_model(m: Seq<EntryModel>, path: Seq<Seq<char>>, i: int) -> (
    Seq<EntryModel>,
    int,
)
    decreases path.len() - i,
{
    if i < 0 || i >= path.len() {
        (m, -1)
    } else {
        let k = path[i];
        let fi = find_key(m, k);
        if fi == -1 {
            let (sub, col) = create_path_model(Seq::<EntryModel>::empty(), path, i + 1);
            if col == -1 {
                (set_key(m, k, ElemModel::Nested(sub)), -1)
            } else {
                (m, col)
            }
        } else {
            match m[fi].value {
                ElemModel::Nested(n) => {
                    let (sub, col) = create_path_model(n, path, i + 1);
                    if col == -1 {
                        (set_key(m, k, ElemModel::Nested(sub)), -1)
                    } else {
                        (m, col)
                    }
                },
                ElemModel::Setting(_) => (m, i),
            }
        }
    }
}

/// Writes `key = value` into the table reached from `m` by following
/// `path` from segment `i`. A broken path (a missing segment, or one that
/// stands for a setting) leaves the table unchanged.
pub open spec fn insert_at_path_model(
    m: Seq<EntryModel>,
    path: Seq<Seq<char>>,
    i: int,
    key: Seq<char>,
    value: Seq<char>,
) -> Seq<EntryModel>
    decreases path.len() - i,
{
    if i < 0 || i >= path.len() {
        set_key(m, key, ElemModel::Setting(value))
    } else {
        let k = path[i];
        let fi = find_key(m, k);
        if fi >= 0 {
            match m[fi].value {
                ElemModel::Nested(n) => set_key(
                    m,
                    k,
                    ElemModel::Nested(insert_at_path_model(n, path, i + 1, key, value)),
                ),
                ElemModel::Setting(_) => m,
            }
        } else {
            m
        }
    }
}

/// The common prefix of every parser diagnostic: the zero-based line number
/// it speaks of.
pub open spec fn line_err_prefix(n: int) -> Seq<char> {
    "error on line #"@ + dec_str_of(n) + " - "@
}

/// Diagnostic for an array-of-tables line (`[[...]]`).
pub open spec fn msg_arrays(n: int, l: Seq<char>) -> Seq<char> {
    line_err_prefix(n) + "arrays are not supported in config file:\n"@ + l
}

/// Diagnostic for a header missing its closing bracket.
pub open spec fn msg_unterminated(n: int, l: Seq<char>) -> Seq<char> {
    line_err_prefix(n) + "table name is not properly terminated (missing ']'):\n"@ + l
}

/// Diagnostic for blank space inside a table header.
pub open spec fn msg_table_ws(n: int) -> Seq<char> {
    line_err_prefix(n) + "no white space allowed in table names"@
}

/// Diagnostic for a header segment that collides with an existing setting.
pub open spec fn msg_collision(n: int, k: Seq<char>) -> Seq<char> {
    line_err_prefix(n)
        + "tried to insert a `Nested` element, but found a `Setting` element of the same name (`"@
        + k + "`)"@
}

proof fn lemma_entries_update(s: Seq<ConfigEntry>, i: int, x: ConfigEntry)
    requires
        0 <= i < s.len(),
    ensures
        entries_model(s.update(i, x)) == entries_model(s).update(i, entry_model(x)),
    decreases s.len(),
{
    lemma_entries_model_len(s);
    let t = s.update(i, x);
    lemma_entries_model_len(t);
    if i == 0 {
        assert(t[0] == x);
        assert(t.drop_first() =~= s.drop_first());
        assert(entries_model(t) =~= entries_model(s).update(0, entry_model(x)));
    } else {
        assert(t[0] == s[0]);
        lemma_entries_update(s.drop_first(), i - 1, x);
        assert(t.drop_first() =~= s.drop_first().update(i - 1, x));
        assert(entries_model(t) =~= entries_model(s).update(i, entry_model(x)));
    }
}

fn line_err_head(n: usize) -> (r: String)
    ensures
        r@ == line_err_prefix(n as int),
{
    let mut s = String::from_str("error on line #");
    append_dec(&mut s, n);
    s.append(" - ");
    s
}

fn msg_arrays_str(n: usize, l: &str) -> (r: String)
    ensures
        r@ == msg_arrays(n as int, l@),
{
    let mut s = line_err_head(n);
    s.append("arrays are not supported in config file:\n");
    s.append(l);
    s
}

fn msg_unterminated_str(n: usize, l: &str) -> (r: String)
    ensures
        r@ == msg_unterminated(n as int, l@),
{
    let mut s = line_err_head(n);
    s.append("table name is not properly terminated (missing ']'):\n");
    s.append(l);
    s
}

fn msg_table_ws_str(n: usize) -> (r: String)
    ensures
        r@ == msg_table_ws(n as int),
{
    let mut s = line_err_head(n);
    s.append("no white space allowed in table names");
    s
}

fn msg_collision_str(n: usize, k: &str) -> (r: String)
    ensures
        r@ == msg_collision(n as int, k@),
{
    let mut s = line_err_head(n);
    s.append(
        "tried to insert a `Nested` element, but found a `Setting` element of the same name (`",
    );
    s.append(k);
    s.append("`)");
    s
}

/// Deletes every quote character from the string.
fn strip_quotes_str(s: &str) -> (r: String)
    ensures
        r@ == strip_quotes(s@),
{
    let len = s.unicode_len();
    let mut r = String::new();
    let mut i: usize = 0;
    while i < len
        invariant
            len == s@.len(),
            0 <= i <= len,
            r@ == strip_quotes(s@.subrange(0, i as int)),
        decreases len - i,
    {
        let c = s.get_char(i);
        proof {
            let pre = s@.subrange(0, i as int);
            let pre2 = s@.subrange(0, i + 1);
            assert(pre2.drop_last() =~= pre);
            assert(pre2.last() == s@[i as int]);
        }
        if c != '"' && c != '\'' {
            push_char(&mut r, c);
        }
        i = i + 1;
    }
    proof {
        assert(s@.subrange(0, len as int) =~= s@);
    }
    r
}

/// Splits a header line into its trimmed, non-empty path segments.
fn header_token_list(l: &str) -> (r: Vec<String>)
    ensures
        r@.map_values(|t: String| t@) == header_tokens(l@),
{
    let seps: Vec<char> = vec!['.', '[', ']'];
    let pieces = split_at_chars(l, &seps);
    proof {
        assert forall|c: char| #[trigger] seps@.contains(c) == is_header_sep(c) by {
            if is_header_sep(c) {
                if c == '.' {
                    assert(seps@[0] == c);
                } else if c == '[' {
                    assert(seps@[1] == c);
                } else {
                    assert(seps@[2] == c);
                }
            }
        }
        lemma_split_when_congruent(
            l@,
            |c: char| seps@.contains(c),
            |c: char| is_header_sep(c),
        );
    }
    let ghost pieces_v = pieces@.map_values(|p: String| p@);
    let mut r: Vec<String> = Vec::new();
    let mut i: usize = 0;
    while i < pieces.len()
        invariant
            pieces_v == pieces@.map_values(|p: String| p@),
            pieces_v == split_when(l@, |c: char| is_header_sep(c)),
            0 <= i <= pieces@.len(),
            r@.map_values(|t: String| t@) == retain_nonempty(
                pieces_v.take(i as int).map_values(|t: Seq<char>| trim_spec(t)),
            ),
        decreases pieces@.len() - i,
    {
        let t = trim_str(pieces[i].as_str());
        let keep = t.as_str().unicode_len() > 0;
        let ghost old_r = r@.map_values(|t: String| t@);
        let ghost tv = t@;
        if keep {
            r.push(t);
        }
        proof {
            let trimmed = pieces_v.take(i as int).map_values(|t: Seq<char>| trim_spec(t));
            let trimmed2 = pieces_v.take(i + 1).map_values(|t: Seq<char>| trim_spec(t));
            assert(pieces_v.take(i + 1) =~= pieces_v.take(i as int).push(pieces_v[i as int]));
            assert(trimmed2 =~= trimmed.push(trim_spec(pieces_v[i as int])));
            assert(trimmed2.drop_last() =~= trimmed);
            assert(trimmed2.last() == tv);
            if keep {
                assert(r@.map_values(|t: String| t@) =~= old_r.push(tv));
            }
        }
        i = i + 1;
    }
    proof {
        assert(pieces_v.take(pieces_v.len() as int) =~= pieces_v);
    }
    r
}

/// Walks `path` from segment `i` downward from `m`, creating missing
/// tables; on a collision with an existing setting, leaves the table
/// unchanged and reports the index of the colliding segment.
fn create_path_map(m: ConfigMap, path: &Vec<String>, i: usize) -> (r: (ConfigMap, Option<usize>))
    requires
        i as int <= path@.len(),
    ensures
        ({
            let sm = create_path_model(m@, path@.map_values(|p: String| p@), i as int);
            r.0@ == sm.0 && (match r.1 {
                None => sm.1 == -1,
                Some(j) => sm.1 == j as int && i <= j < path@.len(),
            })
        }),
    decreases path@.len() - i,
{
    let ghost pv = path@.map_values(|p: String| p@);
    let mut m = m;
    if i >= path.len() {
        return (m, None);
    }
    proof {
        assert(pv[i as int] == path@[i as int]@);
        lemma_entries_model_len(m.entries@);
    }
    let idx = m.find_index(path[i].as_str());
    match idx {
        None => {
            let (sub, col) = create_path_map(ConfigMap::new(), path, i + 1);
            match col {
                None => {
                    let key = path[i].as_str().to_owned();
                    m.set(key, ConfigElement::Nested(sub));
                    (m, None)
                },
                Some(j) => (m, Some(j)),
            }
        },
        Some(fi) => {
            proof {
                lemma_entries_model_len(m.entries@);
                lemma_entries_model_index(m.entries@, fi as int);
                lemma_find_key_bounds(m@, pv[i as int]);
            }
            let ghost m0 = m;
            let e = m.entries.remove(fi);
            match e.value {
                ConfigElement::Setting(s) => {
                    m.entries.insert(fi, ConfigEntry { key: e.key, value: ConfigElement::Setting(s) });
                    proof {
                        assert(m.entries@ =~= m0.entries@);
                    }
                    (m, Some(i))
                },
                ConfigElement::Nested(n) => {
                    let ghost nv = entries_model(n.entries@);
                    let (sub, col) = create_path_map(n, path, i + 1);
                    let newe = ConfigEntry { key: e.key, value: ConfigElement::Nested(sub) };
                    let ghost newev = newe;
                    m.entries.insert(fi, newe);
                    proof {
                        assert(m.entries@ =~= m0.entries@.update(fi as int, newev));
                        lemma_entries_update(m0.entries@, fi as int, newev);
                        assert(entry_model(m0.entries@[fi as int]).key == pv[i as int]);
                    }
                    match col {
                        None => {
                            proof {
                                assert(m@ =~= set_key(
                                    m0@,
                                    pv[i as int],
                                    ElemModel::Nested(create_path_model(nv, pv, i + 1).0),
                                ));
                            }
                            (m, None)
                        },
                        Some(j) => {
                            proof {
                                assert(entry_model(newev) =~= entry_model(m0.entries@[fi as int]));
                                assert(m@ =~= m0@);
                            }
                            (m, Some(j))
                        },
                    }
                },
            }
        },
    }
}

/// Writes `key = value` into the table reached by following `path` from
/// segment `i`; a broken path leaves everything unchanged.
fn insert_at_path_map(m: ConfigMap, path: &Vec<String>, i: usize, key: String, value: String) -> (r:
    ConfigMap)
    requires
        i as int <= path@.len(),
    ensures
        r@ == insert_at_path_model(m@, path@.map_values(|p: String| p@), i as int, key@, value@),
    decreases path@.len() - i,
{
    let ghost pv = path@.map_values(|p: String| p@);
    let mut m = m;
    if i >= path.len() {
        m.set(key, ConfigElement::Setting(value));
        return m;
    }
    proof {
        assert(pv[i as int] == path@[i as int]@);
    }
    let idx = m.find_index(path[i].as_str());
    match idx {
        None => m,
        Some(fi) => {
            proof {
                lemma_entries_model_len(m.entries@);
                lemma_entries_model_index(m.entries@, fi as int);
                lemma_find_key_bounds(m@, pv[i as int]);
            }
            let ghost m0 = m;
            let e = m.entries.remove(fi);
            match e.value {
                ConfigElement::Setting(s) => {
                    m.entries.insert(fi, ConfigEntry { key: e.key, value: ConfigElement::Setting(s) });
                    proof {
                        assert(m.entries@ =~= m0.entries@);
                    }
                    m
                },
                ConfigElement::Nested(n) => {
                    let ghost nv = entries_model(n.entries@);
                    let sub = insert_at_path_map(n, path, i + 1, key, value);
                    let newe = ConfigEntry { key: e.key, value: ConfigElement::Nested(sub) };
                    let ghost newev = newe;
                    m.entries.insert(fi, newe);
                    proof {
                        assert(m.entries@ =~= m0.entries@.update(fi as int, newev));
                        lemma_entries_update(m0.entries@, fi as int, newev);
                        assert(entry_model(m0.entries@[fi as int]).key == pv[i as int]);
                        assert(m@ =~= set_key(
                            m0@,
                            pv[i as int],
                            ElemModel::Nested(insert_at_path_model(nv, pv, i + 1, key@, value@)),
                        ));
                    }
                    m
                },
            }
        },
    }
}

/// A key that survives one serialize/parse line trip unchanged: it is
/// non-empty, carries no blank space at its ends, does not open a table
/// header, and contains none of the characters that drive line parsing.
pub open spec fn safe_key(s: Seq<char>) -> bool {
    s.len() > 0 && !is_blank_char(s[0]) && !is_blank_char(s[s.len() - 1]) && s[0] != '['
        && !contains_char(s, '=') && !contains_char(s, '#') && !contains_char(s, '\n')
}

/// A value that survives one serialize/parse line trip unchanged: it is
/// non-empty, trim-stable, and free of comment markers, quotes and line
/// breaks; it may contain `=`.
pub open spec fn safe_value(s: Seq<char>) -> bool {
    s.len() > 0 && !is_blank_char(s[0]) && !is_blank_char(s[s.len() - 1]) && !contains_char(
        s,
        '#',
    ) && !contains_char(s, '\n') && !contains_char(s, '"') && !contains_char(s, '\'')
}

proof fn lemma_strip_comment_from_no_hash(s: Seq<char>, i: int, sq: bool, dq: bool)
    requires
        !contains_char(s, '#'),
        0 <= i,
    ensures
        strip_comment_from(s, i, sq, dq) == s,
    decreases s.len() - i,
{
    if i < s.len() {
        assert(s[i] != '#');
        if s[i] == '\'' {
            lemma_strip_comment_from_no_hash(s, i + 1, !sq, dq);
        } else if s[i] == '"' {
            lemma_strip_comment_from_no_hash(s, i + 1, sq, !dq);
        } else {
            lemma_strip_comment_from_no_hash(s, i + 1, sq, dq);
        }
    }
}

/// A line without `#` comes out of comment stripping unchanged.
pub proof fn lemma_strip_comment_no_hash(s: Seq<char>)
    requires
        !contains_char(s, '#'),
    ensures
        strip_comment(s) == s,
{
    lemma_strip_comment_from_no_hash(s, 0, false, false);
}

/// A value without quote characters comes out of quote stripping
/// unchanged.
pub proof fn lemma_strip_quotes_id(s: Seq<char>)
    requires
        !contains_char(s, '"'),
        !contains_char(s, '\''),
    ensures
        strip_quotes(s) == s,
    decreases s.len(),
{
    if s.len() > 0 {
        assert(s[s.len() - 1] != '"' && s[s.len() - 1] != '\'');
        assert(!contains_char(s.drop_last(), '"') && !contains_char(s.drop_last(), '\'')) by {
            if contains_char(s.drop_last(), '"') {
                let k = choose|k: int| 0 <= k < s.drop_last().len() && s.drop_last()[k] == '"';
                assert(s[k] == '"');
            }
            if contains_char(s.drop_last(), '\'') {
                let k = choose|k: int| 0 <= k < s.drop_last().len() && s.drop_last()[k] == '\'';
                assert(s[k] == '\'');
            }
        }
        lemma_strip_quotes_id(s.drop_last());
        assert(strip_quotes(s) =~= s);
    }
}

/// A sequence whose ends carry no blank space is trim-stable.
pub proof fn lemma_trim_id(s: Seq<char>)
    requires
        s.len() > 0,
        !is_blank_char(s[0]),
        !is_blank_char(s[s.len() - 1]),
    ensures
        trim_spec(s) == s,
{
    crate::text::lemma_trim_start_subrange(s, 0);
    assert(crate::text::trim_start_spec(s) =~= s);
    crate::text::lemma_trim_end_subrange(s, s.len() as int);
    assert(s.subrange(0, s.len() as int) =~= s);
}

/// Law, line level: a full-line comment leaves the tree builder's state
/// untouched, whatever follows the marker.
pub proof fn lemma_parse_comment_line(st: ParseState, c: Seq<char>, n: int)
    ensures
        parse_line_model(st, "#"@ + c, n) == st,
{
    reveal_strlit("#");
    let lv = "#"@ + c;
    assert(lv[0] == '#');
    crate::text::lemma_trim_keeps_head(lv);
}

/// Law, line level: a serialized setting line `name = value`, with a safe
/// key and a safe value, parses back to exactly one insertion of that
/// key and value at the current table, with no diagnostics.
pub proof fn lemma_parse_kv_line(st: ParseState, name: Seq<char>, value: Seq<char>, n: int)
    requires
        safe_key(name),
        safe_value(value),
    ensures
        parse_line_model(st, name + " = "@ + value, n) == (ParseState {
            tree: insert_at_path_model(st.tree, st.path, 0, name, value),
            path: st.path,
            msgs: st.msgs,
        }),
{
    reveal_strlit(" = ");
    let mid = " = "@;
    assert(mid.len() == 3 && mid[0] == ' ' && mid[1] == '=' && mid[2] == ' ');
    let lv = name + mid + value;
    let nl = name.len() as int;
    assert(lv[0] == name[0]);
    assert(lv[lv.len() - 1] == value[value.len() - 1]);
    assert(!contains_char(lv, '#')) by {
        if contains_char(lv, '#') {
            let k = choose|k: int| 0 <= k < lv.len() && lv[k] == '#';
            if k < nl {
                assert(name[k] == '#');
                assert(contains_char(name, '#'));
            } else if k < nl + 3 {
                assert(mid[k - nl] == '#');
            } else {
                assert(value[k - nl - 3] == '#');
                assert(contains_char(value, '#'));
            }
        }
    }
    lemma_trim_id(lv);
    lemma_strip_comment_no_hash(lv);
    assert(lv[0] != '#');
    assert(lv[0] != '[');
    assert(index_of_char(lv, '=') == nl + 1) by {
        assert forall|k: int| 0 <= k < nl + 1 implies lv[k] != '=' by {
            if k < nl {
                if lv[k] == '=' {
                    assert(name[k] == '=');
                    assert(contains_char(name, '='));
                }
            } else {
                assert(lv[k] == mid[0]);
            }
        }
        assert(lv[nl + 1] == '=');
        crate::text::lemma_index_of_char_at(lv, '=', nl + 1);
    }
    let e = nl + 1;
    let key_part = lv.subrange(0, e);
    assert(key_part =~= name + seq![' ']);
    assert(trim_spec(key_part) == name) by {
        crate::text::lemma_trim_start_subrange(key_part, 0);
        assert(crate::text::trim_start_spec(key_part) =~= key_part);
        crate::text::lemma_trim_end_subrange(key_part, nl);
        assert(key_part.subrange(0, nl) =~= name);
    }
    let val_part = lv.subrange(e + 1, lv.len() as int);
    assert(val_part =~= seq![' '] + value);
    assert(trim_spec(val_part) == value) by {
        crate::text::lemma_trim_start_subrange(val_part, 1);
        assert(val_part.subrange(1, val_part.len() as int) =~= value);
        crate::text::lemma_trim_end_subrange(value, value.len() as int);
        assert(value.subrange(0, value.len() as int) =~= value);
    }
    lemma_strip_quotes_id(value);
}

/// A section name that survives one serialize/parse line trip: non-empty,
/// not opening an array of tables, and free of blanks, path separators,
/// brackets, comment markers and line breaks.
pub open spec fn safe_section_name(x: Seq<char>) -> bool {
    x.len() > 0 && x[0] != '[' && (forall|k: int|
        0 <= k < x.len() ==> !is_blank_char(#[trigger] x[k]) && x[k] != '.' && x[k] != '['
            && x[k] != ']' && x[k] != '#' && x[k] != '\n')
}

/// Keys are untouched by writing a value, so lookups agree.
pub proof fn lemma_find_key_same_keys(a: Seq<EntryModel>, b: Seq<EntryModel>, key: Seq<char>)
    requires
        a.len() == b.len(),
        forall|j: int| 0 <= j < a.len() ==> (#[trigger] a[j]).key == b[j].key,
    ensures
        find_key(a, key) == find_key(b, key),
    decreases a.len(),
{
    if a.len() > 0 {
        assert(a[0].key == b[0].key);
        assert forall|j: int|
            0 <= j < a.drop_first().len() implies (#[trigger] a.drop_first()[j]).key
            == b.drop_first()[j].key by {
            assert(a.drop_first()[j] == a[j + 1]);
            assert(b.drop_first()[j] == b[j + 1]);
        }
        lemma_find_key_same_keys(a.drop_first(), b.drop_first(), key);
    }
}

/// Appending a fresh key puts it at the end of the lookup order.
pub proof fn lemma_find_key_push(m: Seq<EntryModel>, e: EntryModel, key: Seq<char>)
    requires
        find_key(m, key) == -1,
    ensures
        e.key == key ==> find_key(m.push(e), key) == m.len(),
        e.key != key ==> find_key(m.push(e), key) == -1,
    decreases m.len(),
{
    if m.len() == 0 {
        assert(m.push(e)[0] == e);
        assert(m.push(e).drop_first() =~= Seq::<EntryModel>::empty());
        assert(find_key(Seq::<EntryModel>::empty(), key) == -1);
    } else {
        assert(m[0].key != key) by {
            lemma_find_key_bounds(m, key);
        }
        assert(m.push(e)[0] == m[0]);
        assert(m.push(e).drop_first() =~= m.drop_first().push(e));
        assert(find_key(m.drop_first(), key) == -1) by {
            lemma_find_key_bounds(m, key);
            lemma_find_key_bounds(m.drop_first(), key);
            if find_key(m.drop_first(), key) >= 0 {
                assert(m.drop_first()[find_key(m.drop_first(), key)].key == key);
                assert(m[find_key(m.drop_first(), key) + 1].key == key);
            }
        }
        lemma_find_key_push(m.drop_first(), e, key);
    }
}

/// Law, line level: a serialized section header `[name]`, with a safe
/// section name not yet present at the top level, parses back to exactly
/// one fresh empty table of that name, moves the table pointer there,
/// and produces no diagnostics.
pub proof fn lemma_parse_header_line(st: ParseState, name: Seq<char>, n: int)
    requires
        safe_section_name(name),
        find_key(st.tree, name) == -1,
    ensures
        parse_line_model(st, "["@ + name + "]"@, n) == (ParseState {
            tree: set_key(st.tree, name, ElemModel::Nested(Seq::<EntryModel>::empty())),
            path: seq![name],
            msgs: st.msgs,
        }),
{
    reveal_strlit("[");
    reveal_strlit("]");
    let lb = "["@;
    let rb = "]"@;
    assert(lb.len() == 1 && lb[0] == '[');
    assert(rb.len() == 1 && rb[0] == ']');
    let lv = lb + name + rb;
    let nl = name.len() as int;
    assert(lv.len() == nl + 2);
    assert(lv[0] == '[');
    assert(lv[lv.len() - 1] == ']');
    assert(lv[1] == name[0]);
    assert forall|k: int| 0 <= k < lv.len() implies !is_blank_char(lv[k]) && lv[k] != '#' by {
        if 1 <= k < nl + 1 {
            assert(lv[k] == name[k - 1]);
        }
    }
    assert(!contains_char(lv, '#')) by {
        if contains_char(lv, '#') {
            let k = choose|k: int| 0 <= k < lv.len() && lv[k] == '#';
            assert(lv[k] != '#');
        }
    }
    lemma_trim_id(lv);
    lemma_strip_comment_no_hash(lv);
    assert(lv[0] != '#');
    assert(lv[1] != '[');
    assert(!contains_char(lv, ' ')) by {
        if contains_char(lv, ' ') {
            let k = choose|k: int| 0 <= k < lv.len() && lv[k] == ' ';
            assert(!is_blank_char(lv[k]));
        }
    }
    assert(!contains_char(lv, '\t')) by {
        if contains_char(lv, '\t') {
            let k = choose|k: int| 0 <= k < lv.len() && lv[k] == '\t';
            assert(!is_blank_char(lv[k]));
        }
    }
    // the header splits into an empty piece, the name, and an empty piece
    let f = |c: char| is_header_sep(c);
    assert(header_tokens(lv) == seq![name]) by {
        reveal_with_fuel(retain_nonempty, 4);
        assert(lv =~= Seq::<char>::empty() + seq!['['] + (name + seq![']'] + Seq::<char>::empty()));
        crate::text::lemma_split_when_line(
            Seq::<char>::empty(),
            '[',
            name + seq![']'] + Seq::<char>::empty(),
            f,
        );
        assert forall|k: int| 0 <= k < name.len() implies !f(name[k]) by {}
        crate::text::lemma_split_when_line(name, ']', Seq::<char>::empty(), f);
        assert(crate::text::split_when(Seq::<char>::empty(), f) =~= seq![Seq::<char>::empty()]);
        let pieces = crate::text::split_when(lv, f);
        assert(pieces =~= seq![Seq::<char>::empty(), name, Seq::<char>::empty()]);
        let mapped = pieces.map_values(|t: Seq<char>| trim_spec(t));
        assert(trim_spec(Seq::<char>::empty()).len() == 0);
        lemma_trim_id(name);
        assert(mapped =~= seq![Seq::<char>::empty(), name, Seq::<char>::empty()]);
        assert(mapped.drop_last() =~= seq![Seq::<char>::empty(), name]);
        assert(mapped.drop_last().drop_last() =~= seq![Seq::<char>::empty()]);
        assert(mapped.drop_last().drop_last().drop_last() =~= Seq::<Seq<char>>::empty());
        assert(retain_nonempty(mapped) =~= seq![name]);
    }
    // walking the one-segment path appends one fresh empty table
    let toks = header_tokens(lv);
    assert(create_path_model(st.tree, toks, 0) == (
        set_key(st.tree, name, ElemModel::Nested(Seq::<EntryModel>::empty())),
        -1int,
    )) by {
        assert(toks[0] == name);
        assert(create_path_model(Seq::<EntryModel>::empty(), toks, 1) == (
            Seq::<EntryModel>::empty(),
            -1int,
        ));
    }
}

/// The state of the tree builder between lines: the tree built so far, the
/// dotted path of the table that `key = value` lines currently land in,
/// and the diagnostics collected so far.
#[verifier::ext_equal]
pub struct ParseState {
    pub tree: Seq<EntryModel>,
    pub path: Seq<Seq<char>>,
    pub msgs: Seq<Seq<char>>,
}

/// The tree builder starts with an empty tree, pointing at the root.
pub open spec fn initial_parse_state() -> ParseState {
    ParseState {
        tree: Seq::<EntryModel>::empty(),
        path: Seq::<Seq<char>>::empty(),
        msgs: Seq::<Seq<char>>::empty(),
    }
}

/// What one raw input line (zero-based number `n`) does to the tree
/// builder's state: blank lines and full-line comments are skipped; inline
/// comments are stripped and the line trimmed again; `[[` lines are
/// rejected with a diagnostic; `[` lines move the current table pointer
/// (creating tables, diagnosing bad headers, and skipping a header whose
/// path collides with an existing setting); anything else is a
/// `key = value` line, split at its first `=`, quotes deleted from the
/// value, silently dropped when key or value is empty.
pub open spec fn parse_line_model(st: ParseState, raw: Seq<char>, n: int) -> ParseState {
    let t0 = trim_spec(raw);
    if t0.len() == 0 {
        st
    } else if t0[0] == '#' {
        st
    } else {
        let l = trim_spec(strip_comment(t0));
        if l.len() == 0 {
            st
        } else if l.len() >= 2 && l[0] == '[' && l[1] == '[' {
            ParseState { tree: st.tree, path: st.path, msgs: st.msgs.push(msg_arrays(n, l)) }
        } else if l[0] == '[' {
            let msgs1 = if l[l.len() - 1] != ']' {
                st.msgs.push(msg_unterminated(n, l))
            } else if contains_char(l, ' ') || contains_char(l, '\t') {
                st.msgs.push(msg_table_ws(n))
            } else {
                st.msgs
            };
            let toks = header_tokens(l);
            let walked = create_path_model(st.tree, toks, 0);
            if walked.1 == -1 {
                ParseState { tree: walked.0, path: toks, msgs: msgs1 }
            } else {
                ParseState {
                    tree: st.tree,
                    path: st.path,
                    msgs: msgs1.push(msg_collision(n, toks[walked.1])),
                }
            }
        } else {
            let e = index_of_char(l, '=');
            if e == -1 {
                st
            } else {
                let key = trim_spec(l.subrange(0, e));
                let val = trim_spec(l.subrange(e + 1, l.len() as int));
                if key.len() == 0 || val.len() == 0 {
                    st
                } else {
                    ParseState {
                        tree: insert_at_path_model(st.tree, st.path, 0, key, strip_quotes(val)),
                        path: st.path,
                        msgs: st.msgs,
                    }
                }
            }
        }
    }
}

/// Folds [`parse_line_model`] over the lines, numbering them from `n`.
pub open spec fn parse_lines_model(st: ParseState, lines: Seq<Seq<char>>, n: int) -> ParseState
    decreases lines.len(),
{
    if lines.len() == 0 {
        st
    } else {
        parse_lines_model(parse_line_model(st, lines[0], n), lines.drop_first(), n + 1)
    }
}

/// Whether the character ends a line.
pub open spec fn is_newline(c: char) -> bool {
    c == '\n'
}

/// The meaning of a whole configuration text: the line fold started from
/// the initial state on the text split at newlines.
pub open spec fn parse_text_model(text: Seq<char>) -> ParseState {
    parse_lines_model(initial_parse_state(), split_when(text, |c: char| is_newline(c)), 0)
}

/// Parses configuration text into a table tree and a list of diagnostics.
///
/// The text is handled line by line as [`parse_line_model`] states; the
/// returned tree and messages are exactly those of [`parse_text_model`].
/// All malformed input is either diagnosed or skipped; the function never
/// fails. A table header whose path collides with an existing setting is
/// skipped with a diagnostic, and the current table pointer keeps its
/// previous target.
pub fn parse_config_file(input: &String) -> (r: (ConfigMap, Vec<String>))
    ensures
        r.0@ == parse_text_model(input@).tree,
        r.1@.map_values(|m: String| m@) == parse_text_model(input@).msgs,
{
    let seps: Vec<char> = vec!['\n'];
    let lines = split_at_chars(input.as_str(), &seps);
    proof {
        assert forall|c: char| #[trigger] seps@.contains(c) == is_newline(c) by {
            if is_newline(c) {
                assert(seps@[0] == c);
            }
        }
        lemma_split_when_congruent(input@, |c: char| seps@.contains(c), |c: char| is_newline(c));
    }
    let ghost lv = lines@.map_values(|p: String| p@);
    let mut tree = ConfigMap::new();
    let mut path: Vec<String> = Vec::new();
    let mut msgs: Vec<String> = Vec::new();
    let mut n: usize = 0;
    proof {
        assert(lv.skip(0) =~= lv);
        assert(path@.map_values(|p: String| p@) =~= Seq::<Seq<char>>::empty());
        assert(msgs@.map_values(|m: String| m@) =~= Seq::<Seq<char>>::empty());
        assert(initial_parse_state() =~= ParseState {
            tree: tree@,
            path: path@.map_values(|p: String| p@),
            msgs: msgs@.map_values(|m: String| m@),
        });
    }
    while n < lines.len()
        invariant
            lv == lines@.map_values(|p: String| p@),
            0 <= n <= lines@.len(),
            parse_text_model(input@) == parse_lines_model(
                ParseState {
                    tree: tree@,
                    path: path@.map_values(|p: String| p@),
                    msgs: msgs@.map_values(|m: String| m@),
                },
                lv.skip(n as int),
                n as int,
            ),
        decreases lines@.len() - n,
    {
        let ghost st0 = ParseState {
            tree: tree@,
            path: path@.map_values(|p: String| p@),
            msgs: msgs@.map_values(|m: String| m@),
        };
        proof {
            assert(lv.skip(n as int)[0] == lv[n as int]);
            assert(lv.skip(n as int).drop_first() =~= lv.skip(n as int + 1));
            assert(lv[n as int] == lines@[n as int]@);
        }
        let ghost raw = lv[n as int];
        let ghost st1 = parse_line_model(st0, raw, n as int);

        let t0 = trim_str(lines[n].as_str());
        let t0_len = t0.as_str().unicode_len();
        if t0_len == 0 {
            // blank line: skipped
        } else if t0.as_str().get_char(0) == '#' {
            // full-line comment: skipped
        } else {
            let stripped = remove_inline_comment(t0.as_str());
            let lstr = trim_str(stripped.as_str());
            let llen = lstr.as_str().unicode_len();
            let ghost l = lstr@;
            if llen == 0 {
                // nothing left of the line: skipped
            } else if llen >= 2 && lstr.as_str().get_char(0) == '[' && lstr.as_str().get_char(1)
                == '[' {
                let m = msg_arrays_str(n, lstr.as_str());
                let ghost old_m = msgs@.map_values(|mm: String| mm@);
                msgs.push(m);
                proof {
                    assert(msgs@.map_values(|mm: String| mm@) =~= old_m.push(msg_arrays(
                        n as int,
                        l,
                    )));
                }
            } else if lstr.as_str().get_char(0) == '[' {
                if lstr.as_str().get_char(llen - 1) != ']' {
                    let m = msg_unterminated_str(n, lstr.as_str());
                    let ghost old_m = msgs@.map_values(|mm: String| mm@);
                    msgs.push(m);
                    proof {
                        assert(msgs@.map_values(|mm: String| mm@) =~= old_m.push(msg_unterminated(
                            n as int,
                            l,
                        )));
                    }
                } else if str_contains_char(lstr.as_str(), ' ') || str_contains_char(
                    lstr.as_str(),
                    '\t',
                ) {
                    let m = msg_table_ws_str(n);
                    let ghost old_m = msgs@.map_values(|mm: String| mm@);
                    msgs.push(m);
                    proof {
                        assert(msgs@.map_values(|mm: String| mm@) =~= old_m.push(msg_table_ws(
                            n as int,
                        )));
                    }
                }
                let toks = header_token_list(lstr.as_str());
                let walked = create_path_map(tree, &toks, 0);
                tree = walked.0;
                match walked.1 {
                    None => {
                        path = toks;
                    },
                    Some(j) => {
                        let m = msg_collision_str(n, toks[j].as_str());
                        let ghost old_m = msgs@.map_values(|mm: String| mm@);
                        msgs.push(m);
                        proof {
                            assert(toks@[j as int]@ == header_tokens(l)[j as int]);
                            assert(msgs@.map_values(|mm: String| mm@) =~= old_m.push(
                                msg_collision(n as int, header_tokens(l)[j as int]),
                            ));
                        }
                    },
                }
            } else {
                let eq_idx = str_index_of_char(lstr.as_str(), '=');
                match eq_idx {
                    None => {
                        // no `=`: malformed setting line, silently dropped
                    },
                    Some(e) => {
                        let key_s = trim_str(lstr.as_str().substring_char(0, e));
                        let val_s = trim_str(lstr.as_str().substring_char(e + 1, llen));
                        if key_s.as_str().unicode_len() == 0 || val_s.as_str().unicode_len()
                            == 0 {
                            // empty key or value: malformed setting line, dropped
                        } else {
                            let value = strip_quotes_str(val_s.as_str());
                            let t3 = insert_at_path_map(tree, &path, 0, key_s, value);
                            tree = t3;
                        }
                    },
                }
            }
        }
        proof {
            assert(ParseState {
                tree: tree@,
                path: path@.map_values(|p: String| p@),
                msgs: msgs@.map_values(|m: String| m@),
            } =~= st1);
        }
        n = n + 1;
    }
    proof {
        assert(lv.skip(lines@.len() as int) =~= Seq::<Seq<char>>::empty());
    }
    (tree, msgs)
}

/// Searches for the first `#` not contained within a quoted span and drops
/// the rest of the line. Quote state is toggled independently for `'` and
/// `"`; there is no escape handling, so unbalanced quotes leave the rest
/// of the line treated as quoted.
pub fn remove_inline_comment(line: &str) -> (r: String)
    ensures
        r@ == strip_comment(line@),
{
    let len = line.unicode_len();
    let mut single_quotes = false;
    let mut double_quotes = false;
    let mut i: usize = 0;
    while i < len
        invariant
            len == line@.len(),
            0 <= i <= len,
            strip_comment(line@) == strip_comment_from(
                line@,
                i as int,
                single_quotes,
                double_quotes,
            ),
        decreases len - i,
    {
        let c = line.get_char(i);
        if c == '\'' {
            single_quotes = !single_quotes;
        } else if c == '"' {
            double_quotes = !double_quotes;
        } else if c == '#' && !single_quotes && !double_quotes {
            return line.substring_char(0, i).to_owned();
        }
        i = i + 1;
    }
    line.to_owned()
}

} // verus!
