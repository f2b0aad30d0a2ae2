//! The style compiler: turns comma/space-separated style descriptors such
//! as `"bold, red"` or `"#ff00ff"` into ANSI escape sequences, and offers
//! the small sequence generators the rest of the tool uses for styled
//! terminal output.

use vstd::prelude::*;

use crate::text::{
    dec_str_of, dec_string, dec_val, hex_digit, hex_digit_val, is_dec_digit, is_hex_digit,
    is_u8_numeral, join_strings, join_with, lemma_join_push, lemma_split_when_congruent,
    lower_seq, parse_u8, retain_nonempty, split_at_chars, split_when, str_eq_str, to_lower,
    trim_spec, trim_str,
};

verus! {

/// Escape-sequence prefix (`ESC [`).
pub const PREFIX: &'static str = "\x1b[";

/// Escape character.
pub const ESC: &'static str = "\x1b";

/// The argument that resets all styling.
pub const RESET_ARG: &'static str = "0";

/// The character that terminates an escape sequence.
pub const TERMINATION: &'static str = "m";

/// The sequence that resets all styling.
pub const RESET_SEQ: &'static str = "\x1b[0m";

/// Style-set and style-reset codes for the styles a descriptor may name.
#[derive(Debug, Clone)]
pub struct StyleCodes {
    pub bold: &'static str,
    pub dim: &'static str,
    pub italic: &'static str,
    pub underlined: &'static str,
    pub blinking: &'static str,
    pub reversed: &'static str,
    pub invisible: &'static str,
    pub strikethrough: &'static str,
}

/// The set and reset code tables.
#[derive(Debug, Clone)]
pub struct Styles {
    pub set: StyleCodes,
    pub reset: StyleCodes,
}

/// Color codes for the named colors a descriptor may name.
#[derive(Debug, Clone)]
pub struct ColorCodes {
    pub black: &'static str,
    pub red: &'static str,
    pub green: &'static str,
    pub yellow: &'static str,
    pub blue: &'static str,
    pub magenta: &'static str,
    pub cyan: &'static str,
    pub white: &'static str,
    pub extended: &'static str,
    pub default: &'static str,
}

/// The foreground and background color code tables.
#[derive(Debug, Clone)]
pub struct Colors {
    pub fg: ColorCodes,
    pub bg: ColorCodes,
}

/// Whether an escape sequence addresses the foreground or the background.
#[derive(Debug, Clone)]
pub enum ColorContext {
    Foreground,
    Background,
}

/// The style code table, as the terminal defines it.
pub fn style_table() -> (r: Styles)
    ensures
        r.set.bold@ == "1"@,
        r.set.dim@ == "2"@,
        r.set.italic@ == "3"@,
        r.set.underlined@ == "4"@,
        r.set.blinking@ == "5"@,
        r.set.reversed@ == "7"@,
        r.set.invisible@ == "8"@,
        r.set.strikethrough@ == "9"@,
        r.reset.bold@ == "22"@,
        r.reset.dim@ == "22"@,
        r.reset.italic@ == "23"@,
        r.reset.underlined@ == "24"@,
        r.reset.blinking@ == "25"@,
        r.reset.reversed@ == "27"@,
        r.reset.invisible@ == "28"@,
        r.reset.strikethrough@ == "29"@,
{
    Styles {
        set: StyleCodes {
            bold: "1",
            dim: "2",
            italic: "3",
            underlined: "4",
            blinking: "5",
            reversed: "7",
            invisible: "8",
            strikethrough: "9",
        },
        reset: StyleCodes {
            bold: "22",
            dim: "22",
            italic: "23",
            underlined: "24",
            blinking: "25",
            reversed: "27",
            invisible: "28",
            strikethrough: "29",
        },
    }
}

/// The color code table, as the terminal defines it.
pub fn color_table() -> (r: Colors)
    ensures
        r.fg.black@ == "30"@,
        r.fg.red@ == "31"@,
        r.fg.green@ == "32"@,
        r.fg.yellow@ == "33"@,
        r.fg.blue@ == "34"@,
        r.fg.magenta@ == "35"@,
        r.fg.cyan@ == "36"@,
        r.fg.white@ == "37"@,
        r.fg.extended@ == "38"@,
        r.fg.default@ == "39"@,
        r.bg.black@ == "40"@,
        r.bg.red@ == "41"@,
        r.bg.green@ == "42"@,
        r.bg.yellow@ == "43"@,
        r.bg.blue@ == "44"@,
        r.bg.magenta@ == "45"@,
        r.bg.cyan@ == "46"@,
        r.bg.white@ == "47"@,
        r.bg.extended@ == "48"@,
        r.bg.default@ == "49"@,
{
    Colors {
        fg: ColorCodes {
            black: "30",
            red: "31",
            green: "32",
            yellow: "33",
            blue: "34",
            magenta: "35",
            cyan: "36",
            white: "37",
            extended: "38",
            default: "39",
        },
        bg: ColorCodes {
            black: "40",
            red: "41",
            green: "42",
            yellow: "43",
            blue: "44",
            magenta: "45",
            cyan: "46",
            white: "47",
            extended: "48",
            default: "49",
        },
    }
}

/// A complete escape sequence carrying the given argument text.
pub open spec fn csi_seq(args: Seq<char>) -> Seq<char> {
    "\x1b["@ + args + "m"@
}

/// The views of the arguments that are present, in order.
pub open spec fn present_args(
    style: Option<Seq<char>>,
    foreground: Option<Seq<char>>,
    background: Option<Seq<char>>,
) -> Seq<Seq<char>> {
    (match style {
        Some(s) => seq![s],
        None => Seq::<Seq<char>>::empty(),
    }) + (match foreground {
        Some(s) => seq![s],
        None => Seq::<Seq<char>>::empty(),
    }) + (match background {
        Some(s) => seq![s],
        None => Seq::<Seq<char>>::empty(),
    })
}

/// The view of an optional string slice.
pub open spec fn opt_view(o: Option<&str>) -> Option<Seq<char>> {
    match o {
        Some(s) => Some(s@),
        None => None,
    }
}

/// Generates an escape sequence of the form
/// `ESC [ <style> ; <foreground> ; <background> m`, with each element
/// optional; at least one element must be supplied.
pub fn generate_style_sequence(
    style: Option<&str>,
    foreground: Option<&str>,
    background: Option<&str>,
) -> (r: String)
    requires
        style is Some || foreground is Some || background is Some,
    ensures
        r@ == csi_seq(
            join_with(
                present_args(opt_view(style), opt_view(foreground), opt_view(background)),
                ";"@,
            ),
        ),
{
    let ghost expected = present_args(opt_view(style), opt_view(foreground), opt_view(background));
    let mut arguments: Vec<String> = Vec::new();
    if let Some(item) = style {
        arguments.push(item.to_owned());
    }
    if let Some(item) = foreground {
        arguments.push(item.to_owned());
    }
    if let Some(item) = background {
        arguments.push(item.to_owned());
    }
    proof {
        assert(arguments@.map_values(|a: String| a@) =~= expected);
    }
    let joined = join_strings(&arguments, ";");
    let mut sequence = String::from_str("\x1b[");
    sequence.append(joined.as_str());
    sequence.append("m");
    sequence
}

/// The code that selects the given context for an extended color.
pub open spec fn context_code(context: ColorContext) -> Seq<char> {
    match context {
        ColorContext::Foreground => "38"@,
        ColorContext::Background => "48"@,
    }
}

/// The 256-color palette sequence for an index: every index `0..=255`
/// denotes one.
pub open spec fn palette_seq(context: ColorContext, color: int) -> Seq<char> {
    "\x1b["@ + context_code(context) + ";5;"@ + dec_str_of(color) + "m"@
}

/// Generates a 256-color palette sequence (`ESC [ <ctx> ; 5 ; <n> m`).
pub fn generate_256color_sequence(context: ColorContext, color: u8) -> (r: String)
    ensures
        r@ == palette_seq(context, color as int),
{
    let mut sequence = String::from_str("\x1b[");
    match context {
        ColorContext::Foreground => sequence.append("38"),
        ColorContext::Background => sequence.append("48"),
    };
    sequence.append(";5;");
    let num = dec_string(color as usize);
    sequence.append(num.as_str());
    sequence.append("m");
    sequence
}

/// The truecolor sequence for the given channels.
pub open spec fn rgb_seq(context: ColorContext, red: int, green: int, blue: int) -> Seq<char> {
    "\x1b["@ + context_code(context) + ";2;"@ + dec_str_of(red) + ";"@ + dec_str_of(green) + ";"@
        + dec_str_of(blue) + "m"@
}

/// Generates a truecolor sequence (`ESC [ <ctx> ; 2 ; <r> ; <g> ; <b> m`).
/// Not every terminal emulator supports these.
pub fn generate_rgb_sequence(context: ColorContext, red: u8, green: u8, blue: u8) -> (r: String)
    ensures
        r@ == rgb_seq(context, red as int, green as int, blue as int),
{
    let mut sequence = String::from_str("\x1b[");
    match context {
        ColorContext::Foreground => sequence.append("38"),
        ColorContext::Background => sequence.append("48"),
    };
    sequence.append(";2;");
    let r_num = dec_string(red as usize);
    sequence.append(r_num.as_str());
    sequence.append(";");
    let g_num = dec_string(green as usize);
    sequence.append(g_num.as_str());
    sequence.append(";");
    let b_num = dec_string(blue as usize);
    sequence.append(b_num.as_str());
    sequence.append("m");
    sequence
}

/// Prepends the style sequence and appends the reset sequence.
pub fn apply_format(input: &str, style: &str) -> (r: String)
    ensures
        r@ == style@ + input@ + "\x1b[0m"@,
{
    let mut r = String::from_str(style);
    r.append(input);
    r.append("\x1b[0m");
    r
}

/// Whether the character separates style descriptor tokens.
pub open spec fn is_style_sep(c: char) -> bool {
    c == ' ' || c == ',' || c == '"' || c == '\''
}

/// The tokens of a style descriptor: the text split on spaces, commas and
/// quotes, each token trimmed and lower-cased, empty tokens dropped.
pub open spec fn style_tokens(arg: Seq<char>) -> Seq<Seq<char>> {
    retain_nonempty(
        split_when(arg, |c: char| is_style_sep(c)).map_values(
            |t: Seq<char>| lower_seq(trim_spec(t)),
        ),
    )
}

/// Whether the token is a `#RRGGBB` triplet: exactly seven characters, a
/// leading `#`, and six hexadecimal digits.
pub open spec fn is_rgb_token(t: Seq<char>) -> bool {
    t.len() == 7 && t[0] == '#' && (forall|k: int| 1 <= k < 7 ==> is_hex_digit(t[k]))
}

/// The value of the color channel starting at position `p` of a triplet.
pub open spec fn rgb_channel(t: Seq<char>, p: int) -> int {
    hex_digit_val(t[p]) * 16 + hex_digit_val(t[p + 1])
}

/// Whether the token names a style.
pub open spec fn is_style_keyword(t: Seq<char>) -> bool {
    t == "bold"@ || t == "dim"@ || t == "italic"@ || t == "underlined"@ || t == "blinking"@ || t
        == "reversed"@ || t == "invisible"@ || t == "strikethrough"@
}

/// The style-set code of a style keyword.
pub open spec fn style_keyword_code(t: Seq<char>) -> Seq<char> {
    if t == "bold"@ {
        "1"@
    } else if t == "dim"@ {
        "2"@
    } else if t == "italic"@ {
        "3"@
    } else if t == "underlined"@ {
        "4"@
    } else if t == "blinking"@ {
        "5"@
    } else if t == "reversed"@ {
        "7"@
    } else if t == "invisible"@ {
        "8"@
    } else {
        "9"@
    }
}

/// Whether the token names a foreground color.
pub open spec fn is_named_color(t: Seq<char>) -> bool {
    t == "black"@ || t == "red"@ || t == "green"@ || t == "yellow"@ || t == "blue"@ || t
        == "magenta"@ || t == "cyan"@ || t == "white"@ || t == "default"@
}

/// The foreground code of a named color.
pub open spec fn named_color_code(t: Seq<char>) -> Seq<char> {
    if t == "black"@ {
        "30"@
    } else if t == "red"@ {
        "31"@
    } else if t == "green"@ {
        "32"@
    } else if t == "yellow"@ {
        "33"@
    } else if t == "blue"@ {
        "34"@
    } else if t == "magenta"@ {
        "35"@
    } else if t == "cyan"@ {
        "36"@
    } else if t == "white"@ {
        "37"@
    } else {
        "39"@
    }
}

/// What a descriptor token stands for, tried in this order: a palette
/// index, a `#RRGGBB` triplet, a style keyword, a named color.
pub enum TokenClass {
    PaletteTok,
    RgbTok,
    StyleTok,
    NamedTok,
    UnknownTok,
}

/// Classifies one descriptor token.
pub open spec fn classify(t: Seq<char>) -> TokenClass {
    if is_u8_numeral(t) {
        TokenClass::PaletteTok
    } else if is_rgb_token(t) {
        TokenClass::RgbTok
    } else if is_style_keyword(t) {
        TokenClass::StyleTok
    } else if is_named_color(t) {
        TokenClass::NamedTok
    } else {
        TokenClass::UnknownTok
    }
}

/// Whether the token produces a color (rather than a style).
pub open spec fn is_color_token(t: Seq<char>) -> bool {
    classify(t) is PaletteTok || classify(t) is RgbTok || classify(t) is NamedTok
}

/// The escape sequence one classifiable token compiles to.
pub open spec fn token_sequence(t: Seq<char>) -> Seq<char> {
    match classify(t) {
        TokenClass::PaletteTok => palette_seq(ColorContext::Foreground, dec_val(t)),
        TokenClass::RgbTok => rgb_seq(
            ColorContext::Foreground,
            rgb_channel(t, 1),
            rgb_channel(t, 3),
            rgb_channel(t, 5),
        ),
        TokenClass::StyleTok => csi_seq(style_keyword_code(t)),
        TokenClass::NamedTok => csi_seq(named_color_code(t)),
        TokenClass::UnknownTok => Seq::<char>::empty(),
    }
}

/// The index of the first token that matches nothing, or `-1`.
pub open spec fn first_unknown(toks: Seq<Seq<char>>) -> int
    decreases toks.len(),
{
    if toks.len() == 0 {
        -1
    } else if classify(toks[0]) is UnknownTok {
        0
    } else {
        let r = first_unknown(toks.drop_first());
        if r == -1 {
            -1
        } else {
            r + 1
        }
    }
}

proof fn lemma_first_unknown_at(toks: Seq<Seq<char>>, i: int)
    requires
        0 <= i <= toks.len(),
        forall|j: int| 0 <= j < i ==> !(classify(#[trigger] toks[j]) is UnknownTok),
        i == toks.len() || classify(toks[i]) is UnknownTok,
    ensures
        i == toks.len() ==> first_unknown(toks) == -1,
        i < toks.len() ==> first_unknown(toks) == i,
    decreases i,
{
    if i == 0 {
    } else {
        let d = toks.drop_first();
        assert(forall|j: int| 0 <= j < d.len() ==> #[trigger] d[j] == toks[j + 1]);
        assert forall|j: int| 0 <= j < i - 1 implies !(classify(#[trigger] d[j]) is UnknownTok) by {
            assert(d[j] == toks[j + 1]);
        }
        lemma_first_unknown_at(d, i - 1);
    }
}

/// The sequences of the color tokens, in encounter order.
pub open spec fn color_seqs(toks: Seq<Seq<char>>) -> Seq<Seq<char>>
    decreases toks.len(),
{
    if toks.len() == 0 {
        Seq::<Seq<char>>::empty()
    } else if is_color_token(toks.last()) {
        color_seqs(toks.drop_last()).push(token_sequence(toks.last()))
    } else {
        color_seqs(toks.drop_last())
    }
}

/// The concatenation of the style-keyword sequences, in encounter order.
pub open spec fn styles_concat(toks: Seq<Seq<char>>) -> Seq<char>
    decreases toks.len(),
{
    if toks.len() == 0 {
        Seq::<char>::empty()
    } else if classify(toks.last()) is StyleTok {
        styles_concat(toks.drop_last()) + token_sequence(toks.last())
    } else {
        styles_concat(toks.drop_last())
    }
}

/// What a whole well-formed descriptor compiles to: the style sequences in
/// encounter order, followed by the color sequence, if one is present.
pub open spec fn compiled_style(toks: Seq<Seq<char>>) -> Seq<char> {
    styles_concat(toks) + (if color_seqs(toks).len() == 1 {
        color_seqs(toks)[0]
    } else {
        Seq::<char>::empty()
    })
}

/// Why a style descriptor was rejected.
#[derive(Debug, Clone)]
pub enum StyleError {
    /// A token matched no palette index, triplet, style or color name.
    UnknownToken(String),
    /// More than one color token appeared across the descriptor.
    TooManyColors(String),
    /// A `#`-led token did not hold six hexadecimal digits.
    BadRgb(String),
}

impl StyleError {
    /// A human-readable description of the error.
    pub fn message(&self) -> (r: String)
        ensures
            r@ == match self {
                StyleError::UnknownToken(t) => "-- could not parse style token `"@ + t@
                    + "` in config file"@,
                StyleError::TooManyColors(a) => "-- too many colors found in setting <"@ + a@
                    + ">"@,
                StyleError::BadRgb(t) => "-- failed to parse rgb color `"@ + t@
                    + "` in config file"@,
            },
    {
        match self {
            StyleError::UnknownToken(t) => {
                let mut s = String::from_str("-- could not parse style token `");
                s.append(t.as_str());
                s.append("` in config file");
                s
            },
            StyleError::TooManyColors(a) => {
                let mut s = String::from_str("-- too many colors found in setting <");
                s.append(a.as_str());
                s.append(">");
                s
            },
            StyleError::BadRgb(t) => {
                let mut s = String::from_str("-- failed to parse rgb color `");
                s.append(t.as_str());
                s.append("` in config file");
                s
            },
        }
    }
}

/// Splits a style descriptor into trimmed, lower-cased, non-empty tokens.
fn style_token_list(arg: &str) -> (r: Vec<String>)
    ensures
        r@.map_values(|t: String| t@) == style_tokens(arg@),
{
    let seps: Vec<char> = vec![' ', ',', '"', '\''];
    let pieces = split_at_chars(arg, &seps);
    proof {
        assert forall|c: char| #[trigger] seps@.contains(c) == is_style_sep(c) by {
            if is_style_sep(c) {
                if c == ' ' {
                    assert(seps@[0] == c);
                } else if c == ',' {
                    assert(seps@[1] == c);
                } else if c == '"' {
                    assert(seps@[2] == c);
                } else {
                    assert(seps@[3] == c);
                }
            }
        }
        lemma_split_when_congruent(arg@, |c: char| seps@.contains(c), |c: char| is_style_sep(c));
    }
    let ghost pieces_v = pieces@.map_values(|p: String| p@);
    let mut r: Vec<String> = Vec::new();
    let mut i: usize = 0;
    while i < pieces.len()
        invariant
            pieces_v == pieces@.map_values(|p: String| p@),
            pieces_v == split_when(arg@, |c: char| is_style_sep(c)),
            0 <= i <= pieces@.len(),
            r@.map_values(|t: String| t@) == retain_nonempty(
                pieces_v.take(i as int).map_values(|t: Seq<char>| lower_seq(trim_spec(t))),
            ),
        decreases pieces@.len() - i,
    {
        let t0 = trim_str(pieces[i].as_str());
        let t = to_lower(t0.as_str());
        let keep = t.as_str().unicode_len() > 0;
        let ghost old_r = r@.map_values(|t: String| t@);
        let ghost tv = t@;
        if keep {
            r.push(t);
        }
        proof {
            let mapped = pieces_v.take(i as int).map_values(
                |t: Seq<char>| lower_seq(trim_spec(t)),
            );
            let mapped2 = pieces_v.take(i + 1).map_values(
                |t: Seq<char>| lower_seq(trim_spec(t)),
            );
            assert(pieces_v.take(i + 1) =~= pieces_v.take(i as int).push(pieces_v[i as int]));
            assert(mapped2 =~= mapped.push(lower_seq(trim_spec(pieces_v[i as int]))));
            assert(mapped2.drop_last() =~= mapped);
            assert(mapped2.last() == tv);
            if keep {
                assert(r@.map_values(|t: String| t@) =~= old_r.push(tv));
            }
        }
        i = i + 1;
    }
    proof {
        assert(pieces_v.take(pieces_v.len() as int) =~= pieces_v);
    }
    r
}

/// Compiles a token that is a palette index (`0..=255`) into its
/// foreground sequence.
pub fn parse_numbered_color(string: &String) -> (r: Option<String>)
    ensures
        r is Some <==> is_u8_numeral(string@),
        r is Some ==> r->0@ == palette_seq(ColorContext::Foreground, dec_val(string@)),
{
    match parse_u8(string.as_str()) {
        Some(n) => Some(generate_256color_sequence(ColorContext::Foreground, n)),
        None => None,
    }
}

/// Compiles a token that is a `#RRGGBB` triplet into its foreground
/// truecolor sequence.
pub fn parse_rgb_color(string: &String) -> (r: Option<String>)
    ensures
        r is Some <==> is_rgb_token(string@),
        r is Some ==> r->0@ == rgb_seq(
            ColorContext::Foreground,
            rgb_channel(string@, 1),
            rgb_channel(string@, 3),
            rgb_channel(string@, 5),
        ),
{
    let s = string.as_str();
    let len = s.unicode_len();
    if len != 7 {
        return None;
    }
    if s.get_char(0) != '#' {
        return None;
    }
    let mut channels: [u8; 3] = [0, 0, 0];
    let mut k: usize = 0;
    while k < 3
        invariant
            s@ == string@,
            s@.len() == 7,
            s@[0] == '#',
            0 <= k <= 3,
            forall|j: int| 0 <= j < 2 * k + 1 ==> (j == 0 || is_hex_digit(s@[j])),
            forall|j: int|
                0 <= j < k ==> channels@[j] as int == rgb_channel(s@, 2 * j + 1),
        decreases 3 - k,
    {
        let hi = match hex_digit(s.get_char(2 * k + 1)) {
            Some(v) => v,
            None => {
                proof {
                    assert(!is_rgb_token(string@)) by {
                        if is_rgb_token(string@) {
                            assert(is_hex_digit(string@[2 * (k as int) + 1]));
                        }
                    }
                }
                return None;
            },
        };
        let lo = match hex_digit(s.get_char(2 * k + 2)) {
            Some(v) => v,
            None => {
                proof {
                    assert(!is_rgb_token(string@)) by {
                        if is_rgb_token(string@) {
                            assert(is_hex_digit(string@[2 * (k as int) + 2]));
                        }
                    }
                }
                return None;
            },
        };
        let ghost old_channels = channels@;
        channels[k] = hi * 16 + lo;
        proof {
            assert(channels@ =~= old_channels.update(k as int, (hi * 16 + lo) as u8));
        }
        k = k + 1;
    }
    Some(generate_rgb_sequence(ColorContext::Foreground, channels[0], channels[1], channels[2]))
}

/// Converts a style descriptor to a string of ANSI escape sequences.
///
/// The descriptor is a comma/space-separated list of tokens, each a
/// palette index, a `#RRGGBB` triplet, a style keyword or a named
/// foreground color. Any number of style keywords may combine; at most one
/// color token may appear across the whole descriptor. A token that
/// matches nothing is reported by name; a second color token is reported
/// as too many colors. Style sequences come first, in encounter order,
/// each as its own complete escape sequence; the color sequence, if any,
/// stands last.
pub fn parse_style(arg: &String) -> (r: Result<String, StyleError>)
    ensures
        ({
            let toks = style_tokens(arg@);
            match r {
                Ok(s) => first_unknown(toks) == -1 && color_seqs(toks).len() <= 1 && s@
                    == compiled_style(toks),
                Err(e) => match e {
                    StyleError::UnknownToken(t) => first_unknown(toks) >= 0 && t@
                        == toks[first_unknown(toks)],
                    StyleError::TooManyColors(a) => first_unknown(toks) == -1 && color_seqs(
                        toks,
                    ).len() > 1 && a@ == arg@,
                    StyleError::BadRgb(_) => false,
                },
            }
        }),
{
    let tokens = style_token_list(arg.as_str());
    let ghost toks = style_tokens(arg@);
    let mut styles_acc = String::new();
    let mut colors: Vec<String> = Vec::new();

    let mut i: usize = 0;
    while i < tokens.len()
        invariant
            toks == style_tokens(arg@),
            tokens@.map_values(|t: String| t@) == toks,
            0 <= i <= toks.len(),
            styles_acc@ == styles_concat(toks.take(i as int)),
            colors@.map_values(|c: String| c@) == color_seqs(toks.take(i as int)),
            forall|j: int| 0 <= j < i ==> !(classify(#[trigger] toks[j]) is UnknownTok),
        decreases toks.len() - i,
    {
        let option = &tokens[i];
        let ghost tv = toks[i as int];
        proof {
            assert(tokens@.map_values(|t: String| t@)[i as int] == tokens@[i as int]@);
            assert(option@ == tv);
            assert(toks.take(i + 1) =~= toks.take(i as int).push(tv));
            assert(toks.take(i + 1).drop_last() =~= toks.take(i as int));
        }
        let mut handled = false;
        if let Some(sequence) = parse_numbered_color(option) {
            let ghost old_c = colors@.map_values(|c: String| c@);
            colors.push(sequence);
            proof {
                assert(colors@.map_values(|c: String| c@) =~= old_c.push(token_sequence(tv)));
            }
            handled = true;
        } else if let Some(sequence) = parse_rgb_color(option) {
            let ghost old_c = colors@.map_values(|c: String| c@);
            colors.push(sequence);
            proof {
                assert(colors@.map_values(|c: String| c@) =~= old_c.push(token_sequence(tv)));
            }
            handled = true;
        }
        if !handled {
            let code: Option<&'static str> = if str_eq_str(option.as_str(), "bold") {
                Some("1")
            } else if str_eq_str(option.as_str(), "dim") {
                Some("2")
            } else if str_eq_str(option.as_str(), "italic") {
                Some("3")
            } else if str_eq_str(option.as_str(), "underlined") {
                Some("4")
            } else if str_eq_str(option.as_str(), "blinking") {
                Some("5")
            } else if str_eq_str(option.as_str(), "reversed") {
                Some("7")
            } else if str_eq_str(option.as_str(), "invisible") {
                Some("8")
            } else if str_eq_str(option.as_str(), "strikethrough") {
                Some("9")
            } else {
                None
            };
            match code {
                Some(c) => {
                    let sequence = generate_style_sequence(Some(c), None, None);
                    proof {
                        assert(join_with(seq![c@], ";"@) == c@);
                        assert(classify(tv) is StyleTok);
                        assert(sequence@ == token_sequence(tv));
                    }
                    styles_acc.append(sequence.as_str());
                },
                None => {
                    let fg: Option<&'static str> = if str_eq_str(option.as_str(), "black") {
                        Some("30")
                    } else if str_eq_str(option.as_str(), "red") {
                        Some("31")
                    } else if str_eq_str(option.as_str(), "green") {
                        Some("32")
                    } else if str_eq_str(option.as_str(), "yellow") {
                        Some("33")
                    } else if str_eq_str(option.as_str(), "blue") {
                        Some("34")
                    } else if str_eq_str(option.as_str(), "magenta") {
                        Some("35")
                    } else if str_eq_str(option.as_str(), "cyan") {
                        Some("36")
                    } else if str_eq_str(option.as_str(), "white") {
                        Some("37")
                    } else if str_eq_str(option.as_str(), "default") {
                        Some("39")
                    } else {
                        None
                    };
                    match fg {
                        Some(c) => {
                            let sequence = generate_style_sequence(None, Some(c), None);
                            let ghost old_c = colors@.map_values(|cc: String| cc@);
                            proof {
                                assert(join_with(seq![c@], ";"@) == c@);
                                assert(classify(tv) is NamedTok);
                                assert(sequence@ == token_sequence(tv));
                            }
                            colors.push(sequence);
                            proof {
                                assert(colors@.map_values(|cc: String| cc@) =~= old_c.push(
                                    token_sequence(tv),
                                ));
                            }
                        },
                        None => {
                            proof {
                                assert(classify(tv) is UnknownTok);
                                lemma_first_unknown_at(toks, i as int);
                            }
                            return Err(StyleError::UnknownToken(option.clone()));
                        },
                    }
                }
            }
        }
        i = i + 1;
    }
    proof {
        assert(toks.take(toks.len() as int) =~= toks);
        lemma_first_unknown_at(toks, toks.len() as int);
    }
    if colors.len() > 1 {
        return Err(StyleError::TooManyColors(arg.clone()));
    }
    if colors.len() == 1 {
        let c = &colors[0];
        styles_acc.append(c.as_str());
        proof {
            assert(colors@.map_values(|cc: String| cc@)[0] == colors@[0]@);
        }
    }
    Ok(styles_acc)
}

/// Converts a single color setting to an ANSI escape sequence: a palette
/// index, a `#RRGGBB` triplet, or a named foreground color. Unlike the
/// descriptor compiler, this accepts no style keywords.
pub fn parse_color(color: String) -> (r: Result<String, StyleError>)
    requires
        color@.len() > 0,
    ensures
        ({
            let lower = lower_seq(color@);
            match r {
                Ok(s) => if is_u8_numeral(color@) {
                    s@ == palette_seq(ColorContext::Foreground, dec_val(color@))
                } else if is_rgb_token(color@) {
                    s@ == rgb_seq(
                        ColorContext::Foreground,
                        rgb_channel(color@, 1),
                        rgb_channel(color@, 3),
                        rgb_channel(color@, 5),
                    )
                } else {
                    is_named_color(lower) && s@ == csi_seq(named_color_code(lower))
                },
                Err(e) => match e {
                    StyleError::BadRgb(t) => !is_u8_numeral(color@) && color@.len() == 7
                        && color@[0] == '#' && !is_rgb_token(color@) && t@ == color@,
                    StyleError::UnknownToken(t) => !is_u8_numeral(color@) && !(color@.len() == 7
                        && color@[0] == '#') && !is_named_color(lower) && t@ == color@,
                    StyleError::TooManyColors(_) => false,
                },
            }
        }),
{
    if let Some(numbered) = parse_u8(color.as_str()) {
        return Ok(generate_256color_sequence(ColorContext::Foreground, numbered));
    }
    let len = color.as_str().unicode_len();
    if len == 7 && color.as_str().get_char(0) == '#' {
        return match parse_rgb_color(&color) {
            Some(sequence) => Ok(sequence),
            None => Err(StyleError::BadRgb(color)),
        };
    }
    let lower = to_lower(color.as_str());
    let fg: Option<&'static str> = if str_eq_str(lower.as_str(), "black") {
        Some("30")
    } else if str_eq_str(lower.as_str(), "red") {
        Some("31")
    } else if str_eq_str(lower.as_str(), "green") {
        Some("32")
    } else if str_eq_str(lower.as_str(), "yellow") {
        Some("33")
    } else if str_eq_str(lower.as_str(), "blue") {
        Some("34")
    } else if str_eq_str(lower.as_str(), "magenta") {
        Some("35")
    } else if str_eq_str(lower.as_str(), "cyan") {
        Some("36")
    } else if str_eq_str(lower.as_str(), "white") {
        Some("37")
    } else if str_eq_str(lower.as_str(), "default") {
        Some("39")
    } else {
        None
    };
    match fg {
        Some(c) => {
            let sequence = generate_style_sequence(None, Some(c), None);
            proof {
                assert(join_with(seq![c@], ";"@) == c@);
            }
            Ok(sequence)
        },
        None => Err(StyleError::UnknownToken(color)),
    }
}

/// A run of `n` spaces.
pub open spec fn spaces(n: int) -> Seq<char>
    decreases n,
{
    if n <= 0 {
        Seq::<char>::empty()
    } else {
        spaces(n - 1).push(' ')
    }
}

/// Generates a padding string of the given length, used to align columns
/// in listed output.
pub fn make_padding_string(len: usize) -> (r: String)
    ensures
        r@ == spaces(len as int),
{
    let mut r = String::new();
    let mut i: usize = 0;
    while i < len
        invariant
            0 <= i <= len,
            r@ == spaces(i as int),
        decreases len - i,
    {
        crate::text::push_char(&mut r, ' ');
        i = i + 1;
    }
    r
}

} // verus!
