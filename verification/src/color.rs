//! Color specifications and the terminal escape sequences they stand for.
//!
//! A specification is `[modifier_]base`. The modifier is one of `bold`, `dim`,
//! `italic`, `underline` and `bright`; the base is `#` followed by six
//! hexadecimal digits, read as three bytes, or one of eight color names.
//! Anything else resolves to plain magenta.

use vstd::prelude::*;
use vstd::string::*;
use crate::text::same_text;

verus! {

/// How a color is modified.
#[derive(Clone, Copy, Debug)]
pub enum Modifier {
    /// No modifier was written.
    Plain,
    Bold,
    Dim,
    Italic,
    Underline,
    /// Selects the bright table for a named color; a 24-bit color is set in
    /// bold instead.
    Bright,
}

/// The eight colors that have a name, in the order of the table.
#[derive(Clone, Copy, Debug)]
pub enum Name {
    Black,
    Red,
    Green,
    Yellow,
    Blue,
    Magenta,
    Cyan,
    White,
}

/// The place of a named color in the table, from 0 for black to 7 for
/// white.
pub open spec fn place_of(name: Name) -> u8 {
    match name {
        Name::Black => 0,
        Name::Red => 1,
        Name::Green => 2,
        Name::Yellow => 3,
        Name::Blue => 4,
        Name::Magenta => 5,
        Name::Cyan => 6,
        Name::White => 7,
    }
}

/// The color itself.
#[derive(Clone, Copy, Debug)]
pub enum Base {
    /// A 24-bit color.
    Rgb(u8, u8, u8),
    /// One of the eight named colors.
    Named(Name),
}

/// A color specification that was recognized.
#[derive(Clone, Copy, Debug)]
pub struct Color {
    pub modifier: Modifier,
    pub base: Base,
}

/// The modifier that `word` names, if any.
pub open spec fn modifier_named(word: Seq<char>) -> Option<Modifier> {
    if word == "bold"@ {
        Some(Modifier::Bold)
    } else if word == "dim"@ {
        Some(Modifier::Dim)
    } else if word == "italic"@ {
        Some(Modifier::Italic)
    } else if word == "underline"@ {
        Some(Modifier::Underline)
    } else if word == "bright"@ {
        Some(Modifier::Bright)
    } else {
        None
    }
}

/// The color that `word` names, if any.
pub open spec fn color_named(word: Seq<char>) -> Option<Name> {
    if word == "black"@ {
        Some(Name::Black)
    } else if word == "red"@ {
        Some(Name::Red)
    } else if word == "green"@ {
        Some(Name::Green)
    } else if word == "yellow"@ {
        Some(Name::Yellow)
    } else if word == "blue"@ {
        Some(Name::Blue)
    } else if word == "magenta"@ {
        Some(Name::Magenta)
    } else if word == "cyan"@ {
        Some(Name::Cyan)
    } else if word == "white"@ {
        Some(Name::White)
    } else {
        None
    }
}

/// The value of a hexadecimal digit, in either case.
pub open spec fn hex_digit_value(c: char) -> Option<u8> {
    if '0' <= c <= '9' {
        Some((c as int - '0' as int) as u8)
    } else if 'a' <= c <= 'f' {
        Some((c as int - 'a' as int + 10) as u8)
    } else if 'A' <= c <= 'F' {
        Some((c as int - 'A' as int + 10) as u8)
    } else {
        None
    }
}

/// The byte that two hexadecimal digits spell, the high half first. Two
/// characters of which one is no hexadecimal digit spell no byte.
pub open spec fn hex_pair_value(hi: char, lo: char) -> Option<u8> {
    match (hex_digit_value(hi), hex_digit_value(lo)) {
        (Some(h), Some(l)) => Some((16 * h + l) as u8),
        _ => None,
    }
}

/// The base that `word` spells, if any: a 24-bit color where it is `#` and
/// six hexadecimal digits, a named color where it is one of the eight names.
pub open spec fn base_of(word: Seq<char>) -> Option<Base> {
    if word.len() == 7 && word[0] == '#' {
        match (
            hex_pair_value(word[1], word[2]),
            hex_pair_value(word[3], word[4]),
            hex_pair_value(word[5], word[6]),
        ) {
            (Some(r), Some(g), Some(b)) => Some(Base::Rgb(r, g, b)),
            _ => None,
        }
    } else {
        match color_named(word) {
            Some(name) => Some(Base::Named(name)),
            None => None,
        }
    }
}

/// The color that a specification spells, if it is recognized. A `_` parts
/// the modifier from the base; a specification with more than one is not
/// recognized.
pub open spec fn parsed(spec: Seq<char>) -> Option<Color> {
    match spec.index_of_first('_') {
        Some(at) => if spec.subrange(at + 1, spec.len() as int).contains('_') {
            None
        } else {
            match (
                modifier_named(spec.subrange(0, at)),
                base_of(spec.subrange(at + 1, spec.len() as int)),
            ) {
                (Some(modifier), Some(base)) => Some(Color { modifier, base }),
                _ => None,
            }
        },
        None => match base_of(spec) {
            Some(base) => Some(Color { modifier: Modifier::Plain, base }),
            None => None,
        },
    }
}

/// The character for a decimal digit.
pub open spec fn digit_char(d: int) -> char {
    ('0' as int + d) as char
}

/// A byte written in decimal without leading zeros.
pub open spec fn decimal(n: u8) -> Seq<char> {
    if n >= 100 {
        seq![digit_char(n as int / 100), digit_char(n as int / 10 % 10), digit_char(n as int % 10)]
    } else if n >= 10 {
        seq![digit_char(n as int / 10), digit_char(n as int % 10)]
    } else {
        seq![digit_char(n as int)]
    }
}

/// What a modifier puts before the color code. `bright` puts nothing before
/// a named color, whose code it changes, and sets a 24-bit color in bold.
pub open spec fn attribute_prefix(modifier: Modifier, base: Base) -> Seq<char> {
    match modifier {
        Modifier::Plain => Seq::empty(),
        Modifier::Bold => "1;"@,
        Modifier::Dim => "2;"@,
        Modifier::Italic => "3;"@,
        Modifier::Underline => "4;"@,
        Modifier::Bright => match base {
            Base::Rgb(_, _, _) => "1;"@,
            Base::Named(_) => Seq::empty(),
        },
    }
}

/// The color code: `38;2;r;g;b` for a 24-bit color, and for a named color its
/// place in the table after `3`, or after `9` where the modifier is `bright`.
pub open spec fn color_code(modifier: Modifier, base: Base) -> Seq<char> {
    match base {
        Base::Rgb(r, g, b) => "38;2;"@ + decimal(r) + ";"@ + decimal(g) + ";"@ + decimal(b),
        Base::Named(name) => (if modifier is Bright {
            "9"@
        } else {
            "3"@
        }) + decimal(place_of(name)),
    }
}

/// The escape sequence that selects `color`.
pub open spec fn escape_of(color: Color) -> Seq<char> {
    "\x1b["@ + attribute_prefix(color.modifier, color.base) + color_code(
        color.modifier,
        color.base,
    ) + "m"@
}

/// The escape sequence for plain magenta, which stands for every
/// specification that is not recognized.
pub open spec fn fallback_escape() -> Seq<char> {
    "\x1b[35m"@
}

/// The escape sequence that a specification resolves to.
pub open spec fn ansi_escape(spec: Seq<char>) -> Seq<char> {
    match parsed(spec) {
        Some(color) => escape_of(color),
        None => fallback_escape(),
    }
}

fn modifier_of(word: &str) -> (found: Option<Modifier>)
    ensures
        found == modifier_named(word@),
{
    if same_text(word, "bold") {
        Some(Modifier::Bold)
    } else if same_text(word, "dim") {
        Some(Modifier::Dim)
    } else if same_text(word, "italic") {
        Some(Modifier::Italic)
    } else if same_text(word, "underline") {
        Some(Modifier::Underline)
    } else if same_text(word, "bright") {
        Some(Modifier::Bright)
    } else {
        None
    }
}

fn named_color(word: &str) -> (found: Option<Name>)
    ensures
        found == color_named(word@),
{
    if same_text(word, "black") {
        Some(Name::Black)
    } else if same_text(word, "red") {
        Some(Name::Red)
    } else if same_text(word, "green") {
        Some(Name::Green)
    } else if same_text(word, "yellow") {
        Some(Name::Yellow)
    } else if same_text(word, "blue") {
        Some(Name::Blue)
    } else if same_text(word, "magenta") {
        Some(Name::Magenta)
    } else if same_text(word, "cyan") {
        Some(Name::Cyan)
    } else if same_text(word, "white") {
        Some(Name::White)
    } else {
        None
    }
}

fn place(name: Name) -> (at: u8)
    ensures
        at == place_of(name),
{
    match name {
        Name::Black => 0,
        Name::Red => 1,
        Name::Green => 2,
        Name::Yellow => 3,
        Name::Blue => 4,
        Name::Magenta => 5,
        Name::Cyan => 6,
        Name::White => 7,
    }
}

fn hex_digit(c: char) -> (value: Option<u8>)
    ensures
        value == hex_digit_value(c),
{
    let code: u32 = c as u32;
    if '0' <= c && c <= '9' {
        Some((code - 48) as u8)
    } else if 'a' <= c && c <= 'f' {
        Some((code - 97 + 10) as u8)
    } else if 'A' <= c && c <= 'F' {
        Some((code - 65 + 10) as u8)
    } else {
        None
    }
}

fn hex_pair(hi: char, lo: char) -> (value: Option<u8>)
    ensures
        value == hex_pair_value(hi, lo),
{
    match (hex_digit(hi), hex_digit(lo)) {
        (Some(h), Some(l)) => Some(16 * h + l),
        _ => None,
    }
}

fn base_from(word: &str) -> (found: Option<Base>)
    ensures
        found == base_of(word@),
{
    let len = word.unicode_len();
    if len == 7 && word.get_char(0) == '#' {
        let r = hex_pair(word.get_char(1), word.get_char(2));
        let g = hex_pair(word.get_char(3), word.get_char(4));
        let b = hex_pair(word.get_char(5), word.get_char(6));
        match (r, g, b) {
            (Some(r), Some(g), Some(b)) => Some(Base::Rgb(r, g, b)),
            _ => None,
        }
    } else {
        match named_color(word) {
            Some(name) => Some(Base::Named(name)),
            None => None,
        }
    }
}

fn has_separator(text: &str) -> (held: bool)
    ensures
        held == text@.contains('_'),
{
    let len = text.unicode_len();
    let mut i: usize = 0;
    while i < len
        invariant
            i <= len,
            len == text@.len(),
            forall|j: int| 0 <= j < i ==> text@[j] != '_',
        decreases len - i,
    {
        if text.get_char(i) == '_' {
            return true;
        }
        i += 1;
    }
    false
}

/// Reads a color specification.
pub fn parse_color(spec: &str) -> (color: Option<Color>)
    ensures
        color == parsed(spec@),
{
    let len = spec.unicode_len();
    let mut at: usize = 0;
    while at < len && spec.get_char(at) != '_'
        invariant
            at <= len,
            len == spec@.len(),
            forall|j: int| 0 <= j < at ==> spec@[j] != '_',
        decreases len - at,
    {
        at += 1;
    }
    proof {
        spec@.index_of_first_ensures('_');
    }
    if at < len {
        assert(spec@.index_of_first('_') == Some(at as int)) by {
            spec@.index_of_first_ensures('_');
            assert(spec@[at as int] == '_');
            assert(spec@.contains('_'));
        }
        let rest = spec.substring_char(at + 1, len);
        if has_separator(rest) {
            return None;
        }
        let modifier = modifier_of(spec.substring_char(0, at));
        let base = base_from(rest);
        match (modifier, base) {
            (Some(modifier), Some(base)) => Some(Color { modifier, base }),
            _ => None,
        }
    } else {
        assert(spec@.index_of_first('_') is None) by {
            spec@.index_of_first_ensures('_');
            if spec@.contains('_') {
                let j = choose|j: int| 0 <= j < spec@.len() && spec@[j] == '_';
                assert(spec@[j] != '_');
            }
        }
        match base_from(spec) {
            Some(base) => Some(Color { modifier: Modifier::Plain, base }),
            None => None,
        }
    }
}

fn digit_text(d: u8) -> (text: &'static str)
    requires
        d < 10,
    ensures
        text@ == seq![digit_char(d as int)],
{
    proof {
        reveal_strlit("0");
        reveal_strlit("1");
        reveal_strlit("2");
        reveal_strlit("3");
        reveal_strlit("4");
        reveal_strlit("5");
        reveal_strlit("6");
        reveal_strlit("7");
        reveal_strlit("8");
        reveal_strlit("9");
    }
    let text = match d {
        0 => "0",
        1 => "1",
        2 => "2",
        3 => "3",
        4 => "4",
        5 => "5",
        6 => "6",
        7 => "7",
        8 => "8",
        _ => "9",
    };
    assert(text@ =~= seq![digit_char(d as int)]);
    text
}

fn push_decimal(out: &mut String, n: u8)
    ensures
        final(out)@ == old(out)@ + decimal(n),
{
    if n >= 100 {
        out.append(digit_text(n / 100));
    }
    if n >= 10 {
        out.append(digit_text(n / 10 % 10));
    }
    out.append(digit_text(n % 10));
    assert(out@ =~= old(out)@ + decimal(n));
}

fn prefix_text(modifier: Modifier, base: Base) -> (text: &'static str)
    ensures
        text@ == attribute_prefix(modifier, base),
{
    proof {
        reveal_strlit("");
    }
    let text = match modifier {
        Modifier::Plain => "",
        Modifier::Bold => "1;",
        Modifier::Dim => "2;",
        Modifier::Italic => "3;",
        Modifier::Underline => "4;",
        Modifier::Bright => match base {
            Base::Rgb(_, _, _) => "1;",
            Base::Named(_) => "",
        },
    };
    assert(text@ =~= attribute_prefix(modifier, base));
    text
}

/// Writes the escape sequence that selects `color`.
pub fn render_color(color: Color) -> (text: String)
    ensures
        text@ == escape_of(color),
{
    let mut out = String::from_str("\x1b[");
    out.append(prefix_text(color.modifier, color.base));
    let ghost before = out@;
    match color.base {
        Base::Rgb(r, g, b) => {
            out.append("38;2;");
            push_decimal(&mut out, r);
            out.append(";");
            push_decimal(&mut out, g);
            out.append(";");
            push_decimal(&mut out, b);
        },
        Base::Named(name) => {
            match color.modifier {
                Modifier::Bright => out.append("9"),
                _ => out.append("3"),
            }
            push_decimal(&mut out, place(name));
        },
    }
    assert(out@ =~= before + color_code(color.modifier, color.base));
    out.append("m");
    out
}

/// Resolves a color specification to its escape sequence. Every text is
/// accepted; one that is not recognized gives plain magenta.
pub fn color_to_ansi(color: &str) -> (text: String)
    ensures
        text@ == ansi_escape(color@),
        !in_grammar(color@) ==> text@ == fallback_escape(),
{
    proof {
        if !in_grammar(color@) {
            lemma_outside_grammar_is_magenta(color@);
        }
    }
    match parse_color(color) {
        Some(found) => render_color(found),
        None => String::from_str("\x1b[35m"),
    }
}

/// Resolving is a function of the characters: two specifications that
/// read alike resolve alike.
pub proof fn lemma_resolution_is_determined(a: Seq<char>, b: Seq<char>)
    requires
        a =~= b,
    ensures
        ansi_escape(a) == ansi_escape(b),
{
}

/// A specification that is not recognized resolves to plain magenta, which
/// is also what the name `magenta` resolves to.
pub proof fn lemma_fallback_is_magenta(spec: Seq<char>)
    requires
        parsed(spec) is None,
    ensures
        ansi_escape(spec) == fallback_escape(),
        ansi_escape(spec) == escape_of(
            Color { modifier: Modifier::Plain, base: Base::Named(Name::Magenta) },
        ),
{
    reveal_strlit("\x1b[35m");
    reveal_strlit("\x1b[");
    reveal_strlit("3");
    reveal_strlit("m");
    assert(fallback_escape() =~= escape_of(
        Color { modifier: Modifier::Plain, base: Base::Named(Name::Magenta) },
    ));
}

/// Whether `word` is one of the five modifiers.
pub open spec fn is_modifier_word(word: Seq<char>) -> bool {
    word == "bold"@ || word == "dim"@ || word == "italic"@ || word == "underline"@ || word
        == "bright"@
}

/// Whether `word` is one of the eight color names.
pub open spec fn is_color_name(word: Seq<char>) -> bool {
    word == "black"@ || word == "red"@ || word == "green"@ || word == "yellow"@ || word == "blue"@
        || word == "magenta"@ || word == "cyan"@ || word == "white"@
}

/// Whether `c` is a hexadecimal digit, in either case.
pub open spec fn is_hex_digit(c: char) -> bool {
    '0' <= c <= '9' || 'a' <= c <= 'f' || 'A' <= c <= 'F'
}

/// Whether `word` is `#` followed by exactly six hexadecimal digits.
pub open spec fn is_hex_triplet(word: Seq<char>) -> bool {
    word.len() == 7 && word[0] == '#' && forall|i: int|
        1 <= i < 7 ==> is_hex_digit(#[trigger] word[i])
}

/// Whether `word` is a base: a color name or a hex triplet.
pub open spec fn is_base_word(word: Seq<char>) -> bool {
    is_color_name(word) || is_hex_triplet(word)
}

/// Whether `spec` is of the form `[modifier_]base`: a base, or a modifier,
/// one `_` and a base.
pub open spec fn in_grammar(spec: Seq<char>) -> bool {
    is_base_word(spec) || exists|at: int|
        0 <= at < spec.len() && spec[at] == '_' && is_modifier_word(
            #[trigger] spec.subrange(0, at),
        ) && is_base_word(spec.subrange(at + 1, spec.len() as int))
}

/// No modifier and no color name holds a `_`, and no color name starts
/// with `#`.
proof fn lemma_words()
    ensures
        !"bold"@.contains('_'),
        !"dim"@.contains('_'),
        !"italic"@.contains('_'),
        !"underline"@.contains('_'),
        !"bright"@.contains('_'),
        !"black"@.contains('_'),
        !"red"@.contains('_'),
        !"green"@.contains('_'),
        !"yellow"@.contains('_'),
        !"blue"@.contains('_'),
        !"magenta"@.contains('_'),
        !"cyan"@.contains('_'),
        !"white"@.contains('_'),
        "black"@.len() > 0 && "black"@[0] != '#',
        "red"@.len() > 0 && "red"@[0] != '#',
        "green"@.len() > 0 && "green"@[0] != '#',
        "yellow"@.len() > 0 && "yellow"@[0] != '#',
        "blue"@.len() > 0 && "blue"@[0] != '#',
        "magenta"@.len() > 0 && "magenta"@[0] != '#',
        "cyan"@.len() > 0 && "cyan"@[0] != '#',
        "white"@.len() > 0 && "white"@[0] != '#',
{
    reveal_strlit("bold");
    reveal_strlit("dim");
    reveal_strlit("italic");
    reveal_strlit("underline");
    reveal_strlit("bright");
    reveal_strlit("black");
    reveal_strlit("red");
    reveal_strlit("green");
    reveal_strlit("yellow");
    reveal_strlit("blue");
    reveal_strlit("magenta");
    reveal_strlit("cyan");
    reveal_strlit("white");
    assert forall|i: int| 0 <= i < "bold"@.len() implies "bold"@[i] != '_' by {}
    assert forall|i: int| 0 <= i < "dim"@.len() implies "dim"@[i] != '_' by {}
    assert forall|i: int| 0 <= i < "italic"@.len() implies "italic"@[i] != '_' by {}
    assert forall|i: int| 0 <= i < "underline"@.len() implies "underline"@[i] != '_' by {}
    assert forall|i: int| 0 <= i < "bright"@.len() implies "bright"@[i] != '_' by {}
    assert forall|i: int| 0 <= i < "black"@.len() implies "black"@[i] != '_' by {}
    assert forall|i: int| 0 <= i < "red"@.len() implies "red"@[i] != '_' by {}
    assert forall|i: int| 0 <= i < "green"@.len() implies "green"@[i] != '_' by {}
    assert forall|i: int| 0 <= i < "yellow"@.len() implies "yellow"@[i] != '_' by {}
    assert forall|i: int| 0 <= i < "blue"@.len() implies "blue"@[i] != '_' by {}
    assert forall|i: int| 0 <= i < "magenta"@.len() implies "magenta"@[i] != '_' by {}
    assert forall|i: int| 0 <= i < "cyan"@.len() implies "cyan"@[i] != '_' by {}
    assert forall|i: int| 0 <= i < "white"@.len() implies "white"@[i] != '_' by {}
}

/// A base holds no `_`, and it spells a color.
proof fn lemma_base_holds_no_separator(word: Seq<char>)
    requires
        is_base_word(word),
    ensures
        !word.contains('_'),
        base_of(word) is Some,
{
    lemma_words();
    if is_hex_triplet(word) {
        assert forall|i: int| 0 <= i < word.len() implies word[i] != '_' by {
            if i >= 1 {
                assert(is_hex_digit(word[i]));
            }
        }
        assert(is_hex_digit(word[1]) && is_hex_digit(word[2]) && is_hex_digit(word[3])
            && is_hex_digit(word[4]) && is_hex_digit(word[5]) && is_hex_digit(word[6]));
    }
}

/// What is recognized is of the form `[modifier_]base`.
pub proof fn lemma_recognized_is_in_grammar(spec: Seq<char>)
    requires
        parsed(spec) is Some,
    ensures
        in_grammar(spec),
{
    spec.index_of_first_ensures('_');
    match spec.index_of_first('_') {
        Some(at) => {
            let rest = spec.subrange(at + 1, spec.len() as int);
            assert(is_modifier_word(spec.subrange(0, at)));
            lemma_base_of_is_base_word(rest);
        },
        None => {
            lemma_base_of_is_base_word(spec);
        },
    }
}

/// A word that spells a base is a color name or a hex triplet.
proof fn lemma_base_of_is_base_word(word: Seq<char>)
    requires
        base_of(word) is Some,
    ensures
        is_base_word(word),
{
    if word.len() == 7 && word[0] == '#' {
        assert forall|i: int| 1 <= i < 7 implies is_hex_digit(#[trigger] word[i]) by {}
    }
}

/// What is of the form `[modifier_]base` is recognized.
pub proof fn lemma_grammar_is_recognized(spec: Seq<char>)
    requires
        in_grammar(spec),
    ensures
        parsed(spec) is Some,
{
    spec.index_of_first_ensures('_');
    if is_base_word(spec) {
        lemma_base_holds_no_separator(spec);
    } else {
        let at = choose|at: int|
            0 <= at < spec.len() && spec[at] == '_' && is_modifier_word(
                #[trigger] spec.subrange(0, at),
            ) && is_base_word(spec.subrange(at + 1, spec.len() as int));
        let word = spec.subrange(0, at);
        let rest = spec.subrange(at + 1, spec.len() as int);
        lemma_words();
        lemma_base_holds_no_separator(rest);
        assert(spec.contains('_'));
        let first = spec.index_of_first('_')->0;
        if first < at {
            assert(word[first] == spec[first]);
            assert(word.contains('_'));
        }
        assert(first == at);
    }
}

/// Every text that is not of the form `[modifier_]base` resolves to the one
/// escape sequence of plain magenta.
pub proof fn lemma_outside_grammar_is_magenta(spec: Seq<char>)
    requires
        !in_grammar(spec),
    ensures
        ansi_escape(spec) == fallback_escape(),
{
    if parsed(spec) is Some {
        lemma_recognized_is_in_grammar(spec);
    }
}

} // verus!
