//! Verified text utilities: trimming, searching, splitting, case folding,
//! joining, and decimal/hexadecimal conversions over `&str` / `String`,
//! specified against their `Seq<char>` views.

use vstd::prelude::*;

verus! {

/// Characters treated as blank when lines and tokens are trimmed.
pub open spec fn is_blank_char(c: char) -> bool {
    c == ' ' || c == '\t' || c == '\r' || c == '\n'
}

/// Exec mirror of [`is_blank_char`].
pub fn blank_char(c: char) -> (r: bool)
    ensures
        r == is_blank_char(c),
{
    c == ' ' || c == '\t' || c == '\r' || c == '\n'
}

/// The sequence with all leading blank characters removed.
pub open spec fn trim_start_spec(s: Seq<char>) -> Seq<char>
    decreases s.len(),
{
    if s.len() == 0 {
        s
    } else if is_blank_char(s[0]) {
        trim_start_spec(s.drop_first())
    } else {
        s
    }
}

/// The sequence with all trailing blank characters removed.
pub open spec fn trim_end_spec(s: Seq<char>) -> Seq<char>
    decreases s.len(),
{
    if s.len() == 0 {
        s
    } else if is_blank_char(s[s.len() - 1]) {
        trim_end_spec(s.drop_last())
    } else {
        s
    }
}

/// The sequence with leading and trailing blank characters removed.
pub open spec fn trim_spec(s: Seq<char>) -> Seq<char> {
    trim_end_spec(trim_start_spec(s))
}

pub proof fn lemma_trim_start_subrange(s: Seq<char>, i: int)
    requires
        0 <= i <= s.len(),
        forall|k: int| 0 <= k < i ==> is_blank_char(s[k]),
        i == s.len() || !is_blank_char(s[i]),
    ensures
        trim_start_spec(s) == s.subrange(i, s.len() as int),
    decreases i,
{
    if i == 0 {
        assert(trim_start_spec(s) =~= s.subrange(0, s.len() as int));
    } else {
        lemma_trim_start_subrange(s.drop_first(), i - 1);
        assert(s.drop_first().subrange(i - 1, s.drop_first().len() as int) =~= s.subrange(
            i,
            s.len() as int,
        ));
    }
}

pub proof fn lemma_trim_end_subrange(s: Seq<char>, i: int)
    requires
        0 <= i <= s.len(),
        forall|k: int| i <= k < s.len() ==> is_blank_char(s[k]),
        i == 0 || !is_blank_char(s[i - 1]),
    ensures
        trim_end_spec(s) == s.subrange(0, i),
    decreases s.len() - i,
{
    if i == s.len() {
        assert(trim_end_spec(s) =~= s.subrange(0, i));
    } else {
        lemma_trim_end_subrange(s.drop_last(), i);
        assert(s.drop_last().subrange(0, i) =~= s.subrange(0, i));
    }
}

/// Removes leading and trailing blank characters from a string.
pub fn trim_str(s: &str) -> (r: String)
    ensures
        r@ == trim_spec(s@),
{
    let len = s.unicode_len();
    let mut start: usize = 0;
    while start < len && blank_char(s.get_char(start))
        invariant
            len == s@.len(),
            0 <= start <= len,
            forall|k: int| 0 <= k < start ==> is_blank_char(s@[k]),
        decreases len - start,
    {
        start = start + 1;
    }
    let mut end: usize = len;
    while end > start && blank_char(s.get_char(end - 1))
        invariant
            len == s@.len(),
            start <= end <= len,
            forall|k: int| end <= k < len ==> is_blank_char(s@[k]),
        decreases end,
    {
        end = end - 1;
    }
    let r = s.substring_char(start, end);
    proof {
        lemma_trim_start_subrange(s@, start as int);
        let t = s@.subrange(start as int, len as int);
        lemma_trim_end_subrange(t, end - start);
        assert(t.subrange(0, end - start) =~= s@.subrange(start as int, end as int));
    }
    r.to_owned()
}

/// Appends one character to a string.
///
/// Relies on `String::push` from std: it appends exactly the given
/// character to the end of the string.
#[verifier::external_body]
pub fn push_char(s: &mut String, c: char)
    ensures
        final(s)@ == old(s)@.push(c),
{
    s.push(c)
}

/// Character-for-character equality of two string slices.
pub fn str_eq_str(a: &str, b: &str) -> (r: bool)
    ensures
        r == (a@ == b@),
{
    let a_len = a.unicode_len();
    let b_len = b.unicode_len();
    if a_len != b_len {
        assert(a@ != b@);
        return false;
    }
    let mut i: usize = 0;
    while i < a_len
        invariant
            a_len == a@.len(),
            a_len == b@.len(),
            0 <= i <= a_len,
            forall|k: int| 0 <= k < i ==> a@[k] == b@[k],
        decreases a_len - i,
    {
        if a.get_char(i) != b.get_char(i) {
            assert(a@ != b@);
            return false;
        }
        i = i + 1;
    }
    proof {
        assert(a@ =~= b@);
    }
    true
}

/// True if the character occurs in the sequence.
pub open spec fn contains_char(s: Seq<char>, c: char) -> bool {
    exists|k: int| 0 <= k < s.len() && s[k] == c
}

/// Whether the string contains the given character.
pub fn str_contains_char(s: &str, c: char) -> (r: bool)
    ensures
        r == contains_char(s@, c),
{
    let len = s.unicode_len();
    let mut i: usize = 0;
    while i < len
        invariant
            len == s@.len(),
            0 <= i <= len,
            forall|k: int| 0 <= k < i ==> s@[k] != c,
        decreases len - i,
    {
        if s.get_char(i) == c {
            return true;
        }
        i = i + 1;
    }
    false
}

/// The index of the first occurrence of `c` in `s`, or `-1` if absent.
pub open spec fn index_of_char(s: Seq<char>, c: char) -> int
    decreases s.len(),
{
    if s.len() == 0 {
        -1
    } else if s[0] == c {
        0
    } else {
        let r = index_of_char(s.drop_first(), c);
        if r == -1 {
            -1
        } else {
            r + 1
        }
    }
}

/// Facts about [`index_of_char`]: it is a valid index of the first hit,
/// or `-1` when the character does not occur.
pub broadcast proof fn lemma_index_of_char(s: Seq<char>, c: char)
    ensures
        -1 <= #[trigger] index_of_char(s, c) < s.len(),
        index_of_char(s, c) >= 0 ==> s[index_of_char(s, c)] == c,
        index_of_char(s, c) >= 0 ==> forall|j: int| 0 <= j < index_of_char(s, c) ==> s[j] != c,
        index_of_char(s, c) == -1 ==> forall|j: int| 0 <= j < s.len() ==> s[j] != c,
    decreases s.len(),
{
    if s.len() > 0 && s[0] != c {
        let d = s.drop_first();
        lemma_index_of_char(d, c);
        if index_of_char(s, c) >= 0 {
            assert forall|j: int| 0 <= j < index_of_char(s, c) implies s[j] != c by {
                if j > 0 {
                    assert(s[j] == d[j - 1]);
                }
            }
        } else {
            assert forall|j: int| 0 <= j < s.len() implies s[j] != c by {
                if j > 0 {
                    assert(s[j] == d[j - 1]);
                }
            }
        }
    }
}

/// Finds the first occurrence of `c` in the string.
pub fn str_index_of_char(s: &str, c: char) -> (r: Option<usize>)
    ensures
        match r {
            Some(i) => 0 <= i < s@.len() && i as int == index_of_char(s@, c),
            None => index_of_char(s@, c) == -1,
        },
{
    let len = s.unicode_len();
    let mut i: usize = 0;
    while i < len
        invariant
            len == s@.len(),
            0 <= i <= len,
            forall|k: int| 0 <= k < i ==> s@[k] != c,
        decreases len - i,
    {
        if s.get_char(i) == c {
            proof {
                lemma_index_of_char(s@, c);
                if index_of_char(s@, c) != i as int {
                    assert(s@[i as int] == c);
                }
            }
            return Some(i);
        }
        i = i + 1;
    }
    proof {
        lemma_index_of_char(s@, c);
        if index_of_char(s@, c) >= 0 {
            assert(s@[index_of_char(s@, c)] == c);
        }
    }
    None
}

/// The pieces of `s` split at every character satisfying `is_sep`.
/// Separators are dropped; `n + 1` pieces result from `n` separators,
/// so empty pieces appear between adjacent separators and at the ends.
pub open spec fn split_when(s: Seq<char>, is_sep: spec_fn(char) -> bool) -> Seq<Seq<char>>
    decreases s.len(),
{
    if s.len() == 0 {
        seq![s]
    } else if is_sep(s[0]) {
        seq![Seq::<char>::empty()] + split_when(s.drop_first(), is_sep)
    } else {
        let rest = split_when(s.drop_first(), is_sep);
        seq![seq![s[0]] + rest[0]] + rest.drop_first()
    }
}

proof fn lemma_split_when_len(s: Seq<char>, is_sep: spec_fn(char) -> bool)
    ensures
        split_when(s, is_sep).len() >= 1,
    decreases s.len(),
{
    if s.len() != 0 {
        lemma_split_when_len(s.drop_first(), is_sep);
    }
}

/// Splitting at the first separator position: if no character of `s.subrange(0, i)`
/// is a separator and `s[i]` is one, the split is `s[..i]` followed by the
/// split of `s[i+1..]`.
proof fn lemma_split_when_at(s: Seq<char>, is_sep: spec_fn(char) -> bool, i: int)
    requires
        0 <= i <= s.len(),
        forall|k: int| 0 <= k < i ==> !is_sep(s[k]),
        i == s.len() || is_sep(s[i]),
    ensures
        i == s.len() ==> split_when(s, is_sep) == seq![s],
        i < s.len() ==> split_when(s, is_sep) == seq![s.subrange(0, i)] + split_when(
            s.subrange(i + 1, s.len() as int),
            is_sep,
        ),
    decreases i,
{
    lemma_split_when_len(s, is_sep);
    if i == 0 {
        if 0 < s.len() {
            assert(s.subrange(0, 0) =~= Seq::<char>::empty());
            assert(s.subrange(1, s.len() as int) =~= s.drop_first());
        }
    } else {
        let d = s.drop_first();
        lemma_split_when_at(d, is_sep, i - 1);
        let rest = split_when(d, is_sep);
        if i == s.len() {
            assert(rest == seq![d]);
            assert(seq![s[0]] + d =~= s);
        } else {
            assert(rest[0] == d.subrange(0, i - 1));
            assert(seq![s[0]] + d.subrange(0, i - 1) =~= s.subrange(0, i));
            assert(d.subrange(i, d.len() as int) =~= s.subrange(i + 1, s.len() as int));
            assert(rest.drop_first() == split_when(s.subrange(i + 1, s.len() as int), is_sep));
            assert(seq![seq![s[0]] + rest[0]] + rest.drop_first() =~= seq![s.subrange(0, i)]
                + split_when(s.subrange(i + 1, s.len() as int), is_sep));
        }
    }
}

/// Keeping the head: trimming a sequence whose first character is not
/// blank keeps that character in front.
pub proof fn lemma_trim_keeps_head(s: Seq<char>)
    requires
        s.len() > 0,
        !is_blank_char(s[0]),
    ensures
        trim_spec(s).len() > 0,
        trim_spec(s)[0] == s[0],
{
    lemma_trim_start_subrange(s, 0);
    assert(trim_start_spec(s) =~= s);
    lemma_trim_end_keeps_head(s);
}

proof fn lemma_trim_end_keeps_head(s: Seq<char>)
    requires
        s.len() > 0,
        !is_blank_char(s[0]),
    ensures
        trim_end_spec(s).len() > 0,
        trim_end_spec(s)[0] == s[0],
    decreases s.len(),
{
    if s.len() > 1 && is_blank_char(s[s.len() - 1]) {
        lemma_trim_end_keeps_head(s.drop_last());
    }
}

/// Pinning the first hit: if no earlier position holds `c` and position
/// `i` does (or the sequence ends), [`index_of_char`] is exactly `i`
/// (or `-1`).
pub proof fn lemma_index_of_char_at(s: Seq<char>, c: char, i: int)
    requires
        0 <= i <= s.len(),
        forall|k: int| 0 <= k < i ==> s[k] != c,
        i == s.len() || s[i] == c,
    ensures
        i == s.len() ==> index_of_char(s, c) == -1,
        i < s.len() ==> index_of_char(s, c) == i,
{
    lemma_index_of_char(s, c);
    if i == s.len() {
        if index_of_char(s, c) >= 0 {
            assert(s[index_of_char(s, c)] == c);
        }
    } else {
        if index_of_char(s, c) == -1 {
            assert(s[i] != c);
        } else if index_of_char(s, c) < i {
            assert(s[index_of_char(s, c)] == c);
        } else if index_of_char(s, c) > i {
            assert(s[i] != c);
        }
    }
}

/// Splitting off one separator-free line: with `f` true of `sep` and
/// false of every character of `line`, the split of
/// `line + [sep] + rest` is `line` followed by the split of `rest`.
pub proof fn lemma_split_when_line(
    line: Seq<char>,
    sep: char,
    rest: Seq<char>,
    f: spec_fn(char) -> bool,
)
    requires
        f(sep),
        forall|k: int| 0 <= k < line.len() ==> !f(line[k]),
    ensures
        split_when(line + seq![sep] + rest, f) == seq![line] + split_when(rest, f),
{
    let s = line + seq![sep] + rest;
    assert forall|k: int| 0 <= k < line.len() implies !f(s[k]) by {
        assert(s[k] == line[k]);
    }
    assert(s[line.len() as int] == sep);
    lemma_split_when_at(s, f, line.len() as int);
    assert(s.subrange(0, line.len() as int) =~= line);
    assert(s.subrange(line.len() as int + 1, s.len() as int) =~= rest);
}

/// Two separator predicates that agree pointwise split identically.
pub proof fn lemma_split_when_congruent(
    s: Seq<char>,
    f: spec_fn(char) -> bool,
    g: spec_fn(char) -> bool,
)
    requires
        forall|c: char| #[trigger] f(c) == g(c),
    ensures
        split_when(s, f) == split_when(s, g),
    decreases s.len(),
{
    if s.len() > 0 {
        lemma_split_when_congruent(s.drop_first(), f, g);
    }
}

/// Splits the string at every occurrence of a character from `seps`.
pub fn split_at_chars(s: &str, seps: &Vec<char>) -> (r: Vec<String>)
    ensures
        r@.map_values(|p: String| p@) == split_when(s@, |c: char| seps@.contains(c)),
{
    let ghost is_sep = |c: char| seps@.contains(c);
    let len = s.unicode_len();
    let mut r: Vec<String> = Vec::new();
    let mut piece_start: usize = 0;
    let mut i: usize = 0;
    proof {
        assert(s@.subrange(0, len as int) =~= s@);
    }
    while i < len
        invariant
            len == s@.len(),
            0 <= piece_start <= i <= len,
            forall|k: int| piece_start <= k < i ==> !is_sep(s@[k]),
            is_sep == (|c: char| seps@.contains(c)),
            split_when(s@, is_sep) == r@.map_values(|p: String| p@) + split_when(
                s@.subrange(piece_start as int, len as int),
                is_sep,
            ),
        decreases len - i,
    {
        let c = s.get_char(i);
        let mut hit = false;
        let mut j: usize = 0;
        while j < seps.len()
            invariant
                0 <= j <= seps@.len(),
                hit == exists|k: int| 0 <= k < j && seps@[k] == c,
            decreases seps@.len() - j,
        {
            if seps[j] == c {
                hit = true;
            }
            j = j + 1;
        }
        assert(hit == is_sep(c));
        if hit {
            let piece = s.substring_char(piece_start, i).to_owned();
            proof {
                let tail = s@.subrange(piece_start as int, len as int);
                lemma_split_when_at(tail, is_sep, i - piece_start);
                assert(tail.subrange(0, i - piece_start) =~= s@.subrange(
                    piece_start as int,
                    i as int,
                ));
                assert(tail.subrange(i - piece_start + 1, tail.len() as int) =~= s@.subrange(
                    i as int + 1,
                    len as int,
                ));
            }
            let ghost old_r = r@.map_values(|p: String| p@);
            r.push(piece);
            proof {
                assert(r@.map_values(|p: String| p@) =~= old_r.push(piece@));
                assert(old_r + (seq![piece@] + split_when(
                    s@.subrange(i as int + 1, len as int),
                    is_sep,
                )) =~= old_r.push(piece@) + split_when(
                    s@.subrange(i as int + 1, len as int),
                    is_sep,
                ));
            }
            piece_start = i + 1;
        }
        i = i + 1;
    }
    let piece = s.substring_char(piece_start, len).to_owned();
    proof {
        let tail = s@.subrange(piece_start as int, len as int);
        lemma_split_when_at(tail, is_sep, len - piece_start);
        assert(tail.subrange(0, len - piece_start) =~= tail);
    }
    let ghost old_r = r@.map_values(|p: String| p@);
    r.push(piece);
    proof {
        assert(r@.map_values(|p: String| p@) =~= old_r.push(piece@));
        assert(old_r + seq![piece@] =~= old_r.push(piece@));
    }
    r
}

/// The sequence with its empty elements discarded.
pub open spec fn retain_nonempty(s: Seq<Seq<char>>) -> Seq<Seq<char>>
    decreases s.len(),
{
    if s.len() == 0 {
        s
    } else if s.last().len() == 0 {
        retain_nonempty(s.drop_last())
    } else {
        retain_nonempty(s.drop_last()).push(s.last())
    }
}

/// ASCII lower-casing of a single character; all others are unchanged.
pub open spec fn lower_char(c: char) -> char {
    match c {
        'A' => 'a',
        'B' => 'b',
        'C' => 'c',
        'D' => 'd',
        'E' => 'e',
        'F' => 'f',
        'G' => 'g',
        'H' => 'h',
        'I' => 'i',
        'J' => 'j',
        'K' => 'k',
        'L' => 'l',
        'M' => 'm',
        'N' => 'n',
        'O' => 'o',
        'P' => 'p',
        'Q' => 'q',
        'R' => 'r',
        'S' => 's',
        'T' => 't',
        'U' => 'u',
        'V' => 'v',
        'W' => 'w',
        'X' => 'x',
        'Y' => 'y',
        'Z' => 'z',
        _ => c,
    }
}

/// ASCII lower-casing of a whole sequence.
pub open spec fn lower_seq(s: Seq<char>) -> Seq<char> {
    s.map_values(|c: char| lower_char(c))
}

/// Returns the string with every ASCII upper-case letter lower-cased.
pub fn to_lower(s: &str) -> (r: String)
    ensures
        r@ == lower_seq(s@),
{
    let len = s.unicode_len();
    let mut r = String::new();
    let mut i: usize = 0;
    while i < len
        invariant
            len == s@.len(),
            0 <= i <= len,
            r@ == lower_seq(s@.subrange(0, i as int)),
        decreases len - i,
    {
        let c = s.get_char(i);
        let l = match c {
            'A' => 'a',
            'B' => 'b',
            'C' => 'c',
            'D' => 'd',
            'E' => 'e',
            'F' => 'f',
            'G' => 'g',
            'H' => 'h',
            'I' => 'i',
            'J' => 'j',
            'K' => 'k',
            'L' => 'l',
            'M' => 'm',
            'N' => 'n',
            'O' => 'o',
            'P' => 'p',
            'Q' => 'q',
            'R' => 'r',
            'S' => 's',
            'T' => 't',
            'U' => 'u',
            'V' => 'v',
            'W' => 'w',
            'X' => 'x',
            'Y' => 'y',
            'Z' => 'z',
            _ => c,
        };
        assert(l == lower_char(s@[i as int]));
        push_char(&mut r, l);
        proof {
            assert(lower_seq(s@.subrange(0, i + 1)) =~= lower_seq(s@.subrange(0, i as int)).push(
                lower_char(s@[i as int]),
            ));
        }
        i = i + 1;
    }
    proof {
        assert(s@.subrange(0, len as int) =~= s@);
    }
    r
}

/// The parts joined with `sep` between adjacent parts.
pub open spec fn join_with(parts: Seq<Seq<char>>, sep: Seq<char>) -> Seq<char>
    decreases parts.len(),
{
    if parts.len() == 0 {
        Seq::<char>::empty()
    } else if parts.len() == 1 {
        parts[0]
    } else {
        parts[0] + sep + join_with(parts.drop_first(), sep)
    }
}

/// Appending one part to a join extends it by a separator and the part.
pub proof fn lemma_join_push(parts: Seq<Seq<char>>, sep: Seq<char>, x: Seq<char>)
    ensures
        parts.len() == 0 ==> join_with(parts.push(x), sep) == x,
        parts.len() > 0 ==> join_with(parts.push(x), sep) == join_with(parts, sep) + sep + x,
    decreases parts.len(),
{
    if parts.len() == 0 {
        assert(join_with(parts.push(x), sep) == parts.push(x)[0]);
        assert(parts.push(x)[0] == x);
    } else {
        lemma_join_push(parts.drop_first(), sep, x);
        assert(parts.push(x).drop_first() =~= parts.drop_first().push(x));
        if parts.len() == 1 {
            assert(join_with(parts.push(x), sep) == parts[0] + sep + x);
        } else {
            assert(parts[0] + sep + (join_with(parts.drop_first(), sep) + sep + x) =~= (parts[0]
                + sep + join_with(parts.drop_first(), sep)) + sep + x);
        }
    }
}

/// Joins the strings with the separator between adjacent entries.
pub fn join_strings(parts: &Vec<String>, sep: &str) -> (r: String)
    ensures
        r@ == join_with(parts@.map_values(|p: String| p@), sep@),
{
    let mut r = String::new();
    let mut i: usize = 0;
    while i < parts.len()
        invariant
            0 <= i <= parts@.len(),
            r@ == join_with(parts@.map_values(|p: String| p@).take(i as int), sep@),
        decreases parts@.len() - i,
    {
        if i > 0 {
            r.append(sep);
        }
        r.append(parts[i].as_str());
        proof {
            let views = parts@.map_values(|p: String| p@);
            assert(views.take(i + 1) =~= views.take(i as int).push(views[i as int]));
            lemma_join_push(views.take(i as int), sep@, views[i as int]);
        }
        i = i + 1;
    }
    proof {
        assert(parts@.map_values(|p: String| p@).take(parts@.len() as int) =~= parts@.map_values(
            |p: String| p@,
        ));
    }
    r
}

/// The decimal digit character for a value `0 <= d <= 9`.
pub open spec fn dec_digit(d: int) -> char {
    if d == 0 {
        '0'
    } else if d == 1 {
        '1'
    } else if d == 2 {
        '2'
    } else if d == 3 {
        '3'
    } else if d == 4 {
        '4'
    } else if d == 5 {
        '5'
    } else if d == 6 {
        '6'
    } else if d == 7 {
        '7'
    } else if d == 8 {
        '8'
    } else {
        '9'
    }
}

/// The decimal rendering of a non-negative number, without sign and
/// without leading zeros (`0` renders as `"0"`).
pub open spec fn dec_str_of(n: int) -> Seq<char>
    decreases n,
{
    if n <= 0 {
        seq![dec_digit(0)]
    } else if n < 10 {
        seq![dec_digit(n)]
    } else {
        dec_str_of(n / 10).push(dec_digit(n % 10))
    }
}

/// Appends the decimal rendering of `n` to `s`.
pub fn append_dec(s: &mut String, n: usize)
    ensures
        final(s)@ == old(s)@ + dec_str_of(n as int),
    decreases n,
{
    if n < 10 {
        let d = dec_digit_char(n);
        push_char(s, d);
        proof {
            assert(old(s)@.push(dec_digit(n as int)) =~= old(s)@ + dec_str_of(n as int));
        }
    } else {
        append_dec(s, n / 10);
        let d = dec_digit_char(n % 10);
        push_char(s, d);
        proof {
            assert((old(s)@ + dec_str_of(n as int / 10)).push(dec_digit(n as int % 10)) =~= old(
                s,
            )@ + dec_str_of(n as int));
        }
    }
}

/// The digit character for `n <= 9`.
fn dec_digit_char(n: usize) -> (r: char)
    requires
        n <= 9,
    ensures
        r == dec_digit(n as int),
{
    match n {
        0 => '0',
        1 => '1',
        2 => '2',
        3 => '3',
        4 => '4',
        5 => '5',
        6 => '6',
        7 => '7',
        8 => '8',
        _ => '9',
    }
}

/// The decimal rendering of `n` as a fresh string.
pub fn dec_string(n: usize) -> (r: String)
    ensures
        r@ == dec_str_of(n as int),
{
    let mut r = String::new();
    append_dec(&mut r, n);
    proof {
        assert(Seq::<char>::empty() + dec_str_of(n as int) =~= dec_str_of(n as int));
    }
    r
}

/// Whether the character is a decimal digit.
pub open spec fn is_dec_digit(c: char) -> bool {
    c == '0' || c == '1' || c == '2' || c == '3' || c == '4' || c == '5' || c == '6' || c == '7'
        || c == '8' || c == '9'
}

/// The value of a decimal digit character; unspecified input maps to 0.
pub open spec fn dec_digit_val(c: char) -> int {
    if c == '0' {
        0
    } else if c == '1' {
        1
    } else if c == '2' {
        2
    } else if c == '3' {
        3
    } else if c == '4' {
        4
    } else if c == '5' {
        5
    } else if c == '6' {
        6
    } else if c == '7' {
        7
    } else if c == '8' {
        8
    } else {
        9
    }
}

/// The value of a sequence of decimal digit characters.
pub open spec fn dec_val(s: Seq<char>) -> int
    decreases s.len(),
{
    if s.len() == 0 {
        0
    } else {
        dec_val(s.drop_last()) * 10 + dec_digit_val(s.last())
    }
}

/// Whether the sequence is a plain decimal numeral for a value `<= 255`:
/// one or more digit characters, no sign.
pub open spec fn is_u8_numeral(s: Seq<char>) -> bool {
    s.len() > 0 && (forall|k: int| 0 <= k < s.len() ==> is_dec_digit(s[k])) && dec_val(s) <= 255
}

proof fn lemma_dec_val_nonneg(s: Seq<char>)
    ensures
        dec_val(s) >= 0,
    decreases s.len(),
{
    if s.len() > 0 {
        lemma_dec_val_nonneg(s.drop_last());
    }
}

proof fn lemma_dec_val_extend(p: Seq<char>, t: Seq<char>)
    ensures
        dec_val(p + t) >= dec_val(p),
    decreases t.len(),
{
    if t.len() == 0 {
        assert(p + t =~= p);
    } else {
        lemma_dec_val_extend(p, t.drop_last());
        assert((p + t).drop_last() =~= p + t.drop_last());
        lemma_dec_val_nonneg(p + t.drop_last());
    }
}

/// Parses a plain decimal numeral into a `u8`: succeeds exactly on
/// one-or-more digit characters whose value fits.
pub fn parse_u8(s: &str) -> (r: Option<u8>)
    ensures
        r is Some <==> is_u8_numeral(s@),
        r is Some ==> r->0 as int == dec_val(s@),
{
    let len = s.unicode_len();
    if len == 0 {
        return None;
    }
    let mut acc: u32 = 0;
    let mut i: usize = 0;
    while i < len
        invariant
            len == s@.len(),
            0 < len,
            0 <= i <= len,
            forall|k: int| 0 <= k < i ==> is_dec_digit(s@[k]),
            acc as int == dec_val(s@.subrange(0, i as int)),
            acc <= 255,
        decreases len - i,
    {
        let c = s.get_char(i);
        let d: u32 = match c {
            '0' => 0,
            '1' => 1,
            '2' => 2,
            '3' => 3,
            '4' => 4,
            '5' => 5,
            '6' => 6,
            '7' => 7,
            '8' => 8,
            '9' => 9,
            _ => {
                assert(!is_dec_digit(s@[i as int]));
                return None;
            },
        };
        assert(is_dec_digit(s@[i as int]) && d as int == dec_digit_val(s@[i as int]));
        let next: u32 = acc * 10 + d;
        proof {
            assert(s@.subrange(0, i + 1).drop_last() =~= s@.subrange(0, i as int));
            assert(s@.subrange(0, i + 1).last() == s@[i as int]);
        }
        if next > 255 {
            proof {
                assert(dec_val(s@.subrange(0, i + 1)) > 255);
                lemma_dec_val_extend(s@.subrange(0, i + 1), s@.subrange(i + 1, len as int));
                assert(s@.subrange(0, i + 1) + s@.subrange(i + 1, len as int) =~= s@);
            }
            return None;
        }
        acc = next;
        i = i + 1;
    }
    proof {
        assert(s@.subrange(0, len as int) =~= s@);
    }
    Some(acc as u8)
}

/// Whether the character is a hexadecimal digit (either case).
pub open spec fn is_hex_digit(c: char) -> bool {
    is_dec_digit(c) || c == 'a' || c == 'b' || c == 'c' || c == 'd' || c == 'e' || c == 'f' || c
        == 'A' || c == 'B' || c == 'C' || c == 'D' || c == 'E' || c == 'F'
}

/// The value of a hexadecimal digit character; unspecified input maps to 0.
pub open spec fn hex_digit_val(c: char) -> int {
    if is_dec_digit(c) {
        dec_digit_val(c)
    } else if c == 'a' || c == 'A' {
        10
    } else if c == 'b' || c == 'B' {
        11
    } else if c == 'c' || c == 'C' {
        12
    } else if c == 'd' || c == 'D' {
        13
    } else if c == 'e' || c == 'E' {
        14
    } else if c == 'f' || c == 'F' {
        15
    } else {
        0
    }
}

/// The hexadecimal digit's value, or `None` if the character is not one.
pub fn hex_digit(c: char) -> (r: Option<u8>)
    ensures
        r is Some <==> is_hex_digit(c),
        r is Some ==> r->0 as int == hex_digit_val(c),
{
    match c {
        '0' => Some(0),
        '1' => Some(1),
        '2' => Some(2),
        '3' => Some(3),
        '4' => Some(4),
        '5' => Some(5),
        '6' => Some(6),
        '7' => Some(7),
        '8' => Some(8),
        '9' => Some(9),
        'a' | 'A' => Some(10),
        'b' | 'B' => Some(11),
        'c' | 'C' => Some(12),
        'd' | 'D' => Some(13),
        'e' | 'E' => Some(14),
        'f' | 'F' => Some(15),
        _ => None,
    }
}

/// Lexicographic order on character sequences by unicode code point,
/// with a prefix ordered before its extensions.
pub open spec fn lex_le(a: Seq<char>, b: Seq<char>) -> bool
    decreases a.len(),
{
    if a.len() == 0 {
        true
    } else if b.len() == 0 {
        false
    } else if (a[0] as u32) < (b[0] as u32) {
        true
    } else if (a[0] as u32) > (b[0] as u32) {
        false
    } else {
        lex_le(a.drop_first(), b.drop_first())
    }
}

/// Compares two strings lexicographically by unicode code point.
pub fn str_lex_le(a: &str, b: &str) -> (r: bool)
    ensures
        r == lex_le(a@, b@),
{
    let a_len = a.unicode_len();
    let b_len = b.unicode_len();
    let mut i: usize = 0;
    proof {
        assert(a@.subrange(0, a_len as int) =~= a@);
        assert(b@.subrange(0, b_len as int) =~= b@);
    }
    loop
        invariant
            a_len == a@.len(),
            b_len == b@.len(),
            0 <= i,
            i <= a_len,
            i <= b_len,
            lex_le(a@, b@) == lex_le(
                a@.subrange(i as int, a_len as int),
                b@.subrange(i as int, b_len as int),
            ),
        decreases a_len - i,
    {
        if i == a_len {
            proof {
                assert(a@.subrange(i as int, a_len as int).len() == 0);
            }
            return true;
        }
        if i == b_len {
            proof {
                assert(b@.subrange(i as int, b_len as int).len() == 0);
                assert(a@.subrange(i as int, a_len as int).len() > 0);
            }
            return false;
        }
        let ca = a.get_char(i);
        let cb = b.get_char(i);
        proof {
            assert(a@.subrange(i as int, a_len as int)[0] == a@[i as int]);
            assert(b@.subrange(i as int, b_len as int)[0] == b@[i as int]);
            assert(a@.subrange(i as int, a_len as int).drop_first() =~= a@.subrange(
                i + 1,
                a_len as int,
            ));
            assert(b@.subrange(i as int, b_len as int).drop_first() =~= b@.subrange(
                i + 1,
                b_len as int,
            ));
        }
        if (ca as u32) < (cb as u32) {
            return true;
        }
        if (ca as u32) > (cb as u32) {
            return false;
        }
        i = i + 1;
    }
}

} // verus!
