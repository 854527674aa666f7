//! Rendering a status record as one styled prompt line.

use vstd::prelude::*;
use vstd::string::*;
pub use crate::color::color_to_ansi;
use crate::color::ansi_escape;
use crate::error::Error;
use crate::jj::{bookmark_names, JjStatus};
use crate::text::{clip_text, clipped, lemma_clipped};

verus! {

/// How a prompt line is drawn.
#[derive(Debug)]
pub struct FormatOptions {
    pub icon: String,
    pub icon_color: String,
    /// Color of the part of the change identifier that is unique.
    pub change_id_color: String,
    /// Color of what follows the unique part.
    pub change_id_rest_color: String,
    pub bookmark_color: String,
    /// Color of the empty marker and of the description.
    pub status_color: String,
    /// Symbol shown for a conflicted commit.
    pub conflict: String,
    /// Symbol shown for a divergent change.
    pub divergent: String,
    /// Symbol shown for a hidden commit.
    pub hidden: String,
    /// Symbol shown for an immutable commit.
    pub immutable: String,
    /// How many characters of the change identifier are shown.
    pub change_id_len: usize,
    /// Shown for a commit without changes.
    pub empty_text: String,
    /// Shown in place of an empty description.
    pub no_desc_text: String,
    /// How many characters of the description are shown before it is cut.
    pub desc_len: usize,
}

/// The escape sequence that ends a styled stretch.
pub open spec fn reset_escape() -> Seq<char> {
    "\x1b[0m"@
}

/// `content` between the escape sequence of `color` and the reset.
pub open spec fn styled(color: Seq<char>, content: Seq<char>) -> Seq<char> {
    ansi_escape(color) + content + reset_escape()
}

/// `parts` in order with `sep` between each two.
pub open spec fn joined(parts: Seq<Seq<char>>, sep: Seq<char>) -> Seq<char>
    decreases parts.len(),
{
    if parts.len() == 0 {
        Seq::empty()
    } else if parts.len() == 1 {
        parts[0]
    } else {
        joined(parts.drop_last(), sep) + sep + parts.last()
    }
}

/// The views of `texts`, in order.
pub open spec fn views_of(texts: Seq<String>) -> Seq<Seq<char>> {
    Seq::new(texts.len(), |i: int| texts[i]@)
}

/// Each of `names` styled with `color`.
pub open spec fn styled_each(color: Seq<char>, names: Seq<Seq<char>>) -> Seq<Seq<char>> {
    Seq::new(names.len(), |i: int| styled(color, names[i]))
}

/// The change identifier as shown: the first `change_id_len` characters, the
/// unique part in one color and the rest in another, nothing between them.
pub open spec fn change_id_segment(status: &JjStatus, options: &FormatOptions) -> Seq<char> {
    let shown = clipped(status.change_id@, options.change_id_len as int);
    let unique = clipped(shown, status.change_id_prefix_len as int);
    styled(options.change_id_color@, unique) + styled(
        options.change_id_rest_color@,
        shown.skip(unique.len() as int),
    )
}

/// The symbols of the flags that are set: conflict, divergent, hidden,
/// immutable, in that order and with nothing between them.
pub open spec fn flags_text(status: &JjStatus, options: &FormatOptions) -> Seq<char> {
    (if status.conflict {
        options.conflict@
    } else {
        Seq::empty()
    }) + (if status.divergent {
        options.divergent@
    } else {
        Seq::empty()
    }) + (if status.hidden {
        options.hidden@
    } else {
        Seq::empty()
    }) + (if status.immutable {
        options.immutable@
    } else {
        Seq::empty()
    })
}

/// A description cut to `limit` characters, with an ellipsis where
/// something was cut off.
pub open spec fn shortened(description: Seq<char>, limit: int) -> Seq<char> {
    if description.len() > limit {
        clipped(description, limit) + seq!['\u{2026}']
    } else {
        description
    }
}

/// The description as shown, or the text that stands for an empty one.
pub open spec fn description_segment(status: &JjStatus, options: &FormatOptions) -> Seq<char> {
    if status.description@.len() == 0 {
        styled(options.status_color@, options.no_desc_text@)
    } else {
        styled(options.status_color@, shortened(status.description@, options.desc_len as int))
    }
}

/// The segments of a prompt line, in order: icon, change identifier,
/// bookmarks, flags, empty marker, description. The bookmarks are left out
/// where there are none, the flags where no symbol is shown, the empty marker
/// where the commit is not empty.
pub open spec fn prompt_segments(status: &JjStatus, options: &FormatOptions) -> Seq<Seq<char>> {
    seq![styled(options.icon_color@, options.icon@), change_id_segment(status, options)] + (
    if status.bookmarks@.len() > 0 {
        seq![
            joined(
                styled_each(options.bookmark_color@, bookmark_names(status.bookmarks@)),
                seq![' '],
            ),
        ]
    } else {
        Seq::empty()
    }) + (if flags_text(status, options).len() > 0 {
        seq![flags_text(status, options)]
    } else {
        Seq::empty()
    }) + (if status.empty {
        seq![styled(options.status_color@, options.empty_text@)]
    } else {
        Seq::empty()
    }) + seq![description_segment(status, options)]
}

/// The prompt line: the segments with one space between each two.
pub open spec fn prompt_line(status: &JjStatus, options: &FormatOptions) -> Seq<char> {
    joined(prompt_segments(status, options), seq![' '])
}

/// Joins `parts` with one space between each two.
pub fn join_spaced(parts: &Vec<String>) -> (line: String)
    ensures
        line@ == joined(views_of(parts@), seq![' ']),
{
    let mut line = String::new();
    let mut i: usize = 0;
    proof {
        reveal_strlit(" ");
    }
    while i < parts.len()
        invariant
            i <= parts.len(),
            line@ == joined(views_of(parts@).take(i as int), seq![' ']),
            " "@ =~= seq![' '],
        decreases parts.len() - i,
    {
        let ghost all = views_of(parts@);
        assert(all.take(i as int + 1).drop_last() =~= all.take(i as int));
        assert(all.take(i as int + 1).last() == parts@[i as int]@);
        if i > 0 {
            line.append(" ");
        }
        line.append(parts[i].as_str());
        i += 1;
    }
    assert(views_of(parts@).take(i as int) =~= views_of(parts@));
    line
}

/// Wraps `content` between an escape sequence and the reset.
fn wrap(escape: &str, content: &str) -> (text: String)
    ensures
        text@ == escape@ + content@ + reset_escape(),
{
    let mut text = String::from_str(escape);
    text.append(content);
    text.append("\x1b[0m");
    text
}

fn change_id_text(status: &JjStatus, options: &FormatOptions) -> (text: String)
    ensures
        text@ == change_id_segment(status, options),
{
    let unique_color = color_to_ansi(options.change_id_color.as_str());
    let rest_color = color_to_ansi(options.change_id_rest_color.as_str());
    let shown = clip_text(status.change_id.as_str(), options.change_id_len);
    let unique = clip_text(shown.as_str(), status.change_id_prefix_len);
    let shown_len = shown.as_str().unicode_len();
    let unique_len = unique.as_str().unicode_len();
    let rest = shown.as_str().substring_char(unique_len, shown_len);
    assert(rest@ =~= shown@.skip(unique_len as int));
    let mut text = wrap(unique_color.as_str(), unique.as_str());
    let tail = wrap(rest_color.as_str(), rest);
    text.append(tail.as_str());
    text
}

fn bookmarks_text(status: &JjStatus, options: &FormatOptions) -> (text: String)
    ensures
        text@ == joined(
            styled_each(options.bookmark_color@, bookmark_names(status.bookmarks@)),
            seq![' '],
        ),
{
    let color = color_to_ansi(options.bookmark_color.as_str());
    let mut names: Vec<String> = Vec::new();
    let mut i: usize = 0;
    while i < status.bookmarks.len()
        invariant
            i <= status.bookmarks.len(),
            color@ == ansi_escape(options.bookmark_color@),
            names@.len() == i,
            forall|j: int|
                0 <= j < i ==> (#[trigger] names@[j])@ == styled(
                    options.bookmark_color@,
                    status.bookmarks@[j].name@,
                ),
        decreases status.bookmarks.len() - i,
    {
        names.push(wrap(color.as_str(), status.bookmarks[i].name.as_str()));
        i += 1;
    }
    assert(views_of(names@) =~= styled_each(
        options.bookmark_color@,
        bookmark_names(status.bookmarks@),
    ));
    join_spaced(&names)
}

fn flags_string(status: &JjStatus, options: &FormatOptions) -> (text: String)
    ensures
        text@ == flags_text(status, options),
{
    let mut text = String::new();
    if status.conflict {
        text.append(options.conflict.as_str());
    }
    if status.divergent {
        text.append(options.divergent.as_str());
    }
    if status.hidden {
        text.append(options.hidden.as_str());
    }
    if status.immutable {
        text.append(options.immutable.as_str());
    }
    assert(text@ =~= flags_text(status, options));
    text
}

/// Cuts `description` to `limit` characters and marks the cut with an
/// ellipsis.
pub fn shorten(description: &str, limit: usize) -> (text: String)
    ensures
        text@ == shortened(description@, limit as int),
{
    if description.unicode_len() > limit {
        let mut text = clip_text(description, limit);
        proof {
            reveal_strlit("\u{2026}");
        }
        assert("\u{2026}"@ =~= seq!['\u{2026}']);
        text.append("\u{2026}");
        text
    } else {
        String::from_str(description)
    }
}

fn description_text(status: &JjStatus, options: &FormatOptions) -> (text: String)
    ensures
        text@ == description_segment(status, options),
{
    let color = color_to_ansi(options.status_color.as_str());
    if status.description.as_str().unicode_len() == 0 {
        wrap(color.as_str(), options.no_desc_text.as_str())
    } else {
        let shown = shorten(status.description.as_str(), options.desc_len);
        wrap(color.as_str(), shown.as_str())
    }
}

/// Renders a status record as one prompt line.
pub fn format_prompt(status: &JjStatus, options: &FormatOptions) -> (line: String)
    ensures
        line@ == prompt_line(status, options),
{
    let icon_color = color_to_ansi(options.icon_color.as_str());
    let status_color = color_to_ansi(options.status_color.as_str());
    let mut parts: Vec<String> = Vec::new();
    parts.push(wrap(icon_color.as_str(), options.icon.as_str()));
    parts.push(change_id_text(status, options));
    if status.bookmarks.len() > 0 {
        parts.push(bookmarks_text(status, options));
    }
    let flags = flags_string(status, options);
    if flags.as_str().unicode_len() > 0 {
        parts.push(flags);
    }
    if status.empty {
        parts.push(wrap(status_color.as_str(), options.empty_text.as_str()));
    }
    parts.push(description_text(status, options));
    assert(views_of(parts@) =~= prompt_segments(status, options));
    join_spaced(&parts)
}

/// Reads a length option. A negative value is refused under the option's
/// name, and so is one that the machine's word cannot hold.
pub fn parse_non_negative_usize(name: &str, value: i64) -> (parsed: Result<usize, Error>)
    ensures
        parsed is Ok <==> fits(value as int),
        match parsed {
            Ok(length) => length == value,
            Err(error) => refuses_length(error, name@, value as int),
        },
{
    if value < 0 {
        Err(Error::NegativeOption(String::from_str(name)))
    } else if value as u64 > usize::MAX as u64 {
        Err(Error::OptionTooLarge(String::from_str(name)))
    } else {
        Ok(value as usize)
    }
}

/// The options as a caller gave them: each one is there or not.
#[derive(Debug)]
pub struct FormatFlags {
    pub icon: Option<String>,
    pub icon_color: Option<String>,
    pub change_id_color: Option<String>,
    pub change_id_rest_color: Option<String>,
    pub bookmark_color: Option<String>,
    pub status_color: Option<String>,
    pub conflict: Option<String>,
    pub divergent: Option<String>,
    pub hidden: Option<String>,
    pub immutable: Option<String>,
    pub change_id_len: Option<i64>,
    pub empty_text: Option<String>,
    pub no_desc_text: Option<String>,
    pub desc_len: Option<i64>,
}

/// The text that was given, or the default.
pub open spec fn text_or(given: Option<String>, default: Seq<char>) -> Seq<char> {
    match given {
        Some(text) => text@,
        None => default,
    }
}

/// The length that was given, or the default.
pub open spec fn length_or(given: Option<i64>, default: int) -> int {
    match given {
        Some(length) => length as int,
        None => default,
    }
}

/// Whether a length can be taken as it is.
pub open spec fn fits(value: int) -> bool {
    0 <= value <= usize::MAX
}

/// Whether `error` is what refuses `value` for the length option `name`.
pub open spec fn refuses_length(error: Error, name: Seq<char>, value: int) -> bool {
    match error {
        Error::NegativeOption(option) => value < 0 && option@ == name,
        Error::OptionTooLarge(option) => value > usize::MAX && option@ == name,
        Error::Jj(_) => false,
    }
}

/// Whether `options` holds what was given and, for the rest, the defaults.
pub open spec fn is_resolved(options: &FormatOptions, flags: &FormatFlags) -> bool {
    &&& options.icon@ == text_or(flags.icon, "\u{f15c6}"@)
    &&& options.icon_color@ == text_or(flags.icon_color, "blue"@)
    &&& options.change_id_color@ == text_or(flags.change_id_color, "bold_magenta"@)
    &&& options.change_id_rest_color@ == text_or(flags.change_id_rest_color, "dim_magenta"@)
    &&& options.bookmark_color@ == text_or(flags.bookmark_color, "magenta"@)
    &&& options.status_color@ == text_or(flags.status_color, "green"@)
    &&& options.conflict@ == text_or(flags.conflict, "\u{1f4a5}"@)
    &&& options.divergent@ == text_or(flags.divergent, "\u{1f6a7}"@)
    &&& options.hidden@ == text_or(flags.hidden, "\u{1f47b}"@)
    &&& options.immutable@ == text_or(flags.immutable, "\u{1f512}"@)
    &&& options.change_id_len == length_or(flags.change_id_len, 8)
    &&& options.empty_text@ == text_or(flags.empty_text, "(empty)"@)
    &&& options.no_desc_text@ == text_or(flags.no_desc_text, "(no description set)"@)
    &&& options.desc_len == length_or(flags.desc_len, 29)
}

/// Whether `resolved` is the answer to `flags`. Where both lengths can be
/// taken, it is the options with the defaults filled in. Else it is the
/// error that refuses `change-id-len`, or, where that length can be taken,
/// the one that refuses `desc-len`.
pub open spec fn answers_flags(flags: &FormatFlags, resolved: Result<FormatOptions, Error>) -> bool {
    let change_id_len = length_or(flags.change_id_len, 8);
    let desc_len = length_or(flags.desc_len, 29);
    match resolved {
        Ok(options) => fits(change_id_len) && fits(desc_len) && is_resolved(&options, flags),
        Err(error) => {
            ||| refuses_length(error, "change-id-len"@, change_id_len)
            ||| (fits(change_id_len) && refuses_length(error, "desc-len"@, desc_len))
        },
    }
}

fn text_or_default(given: Option<String>, default: &str) -> (text: String)
    ensures
        text@ == text_or(given, default@),
{
    match given {
        Some(text) => text,
        None => String::from_str(default),
    }
}

/// Fills in the defaults for what the caller did not give, and refuses a
/// length that is negative or too large: `change-id-len` first, then
/// `desc-len`.
pub fn resolve_options(flags: FormatFlags) -> (resolved: Result<FormatOptions, Error>)
    ensures
        answers_flags(&flags, resolved),
{
    let change_id_len = match parse_non_negative_usize(
        "change-id-len",
        match flags.change_id_len {
            Some(length) => length,
            None => 8,
        },
    ) {
        Ok(length) => length,
        Err(error) => {
            return Err(error);
        },
    };
    let desc_len = match parse_non_negative_usize(
        "desc-len",
        match flags.desc_len {
            Some(length) => length,
            None => 29,
        },
    ) {
        Ok(length) => length,
        Err(error) => {
            return Err(error);
        },
    };
    Ok(
        FormatOptions {
            icon: text_or_default(flags.icon, "\u{f15c6}"),
            icon_color: text_or_default(flags.icon_color, "blue"),
            change_id_color: text_or_default(flags.change_id_color, "bold_magenta"),
            change_id_rest_color: text_or_default(flags.change_id_rest_color, "dim_magenta"),
            bookmark_color: text_or_default(flags.bookmark_color, "magenta"),
            status_color: text_or_default(flags.status_color, "green"),
            conflict: text_or_default(flags.conflict, "\u{1f4a5}"),
            divergent: text_or_default(flags.divergent, "\u{1f6a7}"),
            hidden: text_or_default(flags.hidden, "\u{1f47b}"),
            immutable: text_or_default(flags.immutable, "\u{1f512}"),
            change_id_len,
            empty_text: text_or_default(flags.empty_text, "(empty)"),
            no_desc_text: text_or_default(flags.no_desc_text, "(no description set)"),
            desc_len,
        },
    )
}

/// What a query shows of an attempt to derive a status: the status where
/// there is one, and nothing where there is no repository or reading it
/// failed.
pub open spec fn shown(attempt: Result<Option<JjStatus>, Error>) -> Option<JjStatus> {
    match attempt {
        Ok(Some(status)) => Some(status),
        _ => None,
    }
}

/// The two queries that a shell can put: for the status of the working
/// copy, and for that status as a prompt line.
#[derive(Debug)]
pub struct JjPlugin;

impl JjPlugin {
    /// The names of the two queries, that for the status first.
    pub fn commands(&self) -> (names: Vec<String>)
        ensures
            names@.len() == 2,
            names@[0]@ == "jj-prompt"@,
            names@[1]@ == "jj-prompt format"@,
    {
        let mut names: Vec<String> = Vec::new();
        names.push(String::from_str("jj-prompt"));
        names.push(String::from_str("jj-prompt format"));
        names
    }

    /// Answers the status query from an attempt to derive the status. No
    /// failure comes through: there is a status or there is none.
    pub fn status(&self, attempt: Result<Option<JjStatus>, Error>) -> (answer: Option<JjStatus>)
        ensures
            answer == shown(attempt),
    {
        match attempt {
            Ok(Some(status)) => Some(status),
            _ => None,
        }
    }

    /// Reads the options of the prompt query. This comes before anything is
    /// read from a repository, so that a length that is refused is
    /// reported whatever the repository holds.
    pub fn options(&self, flags: FormatFlags) -> (resolved: Result<FormatOptions, Error>)
        ensures
            answers_flags(&flags, resolved),
    {
        resolve_options(flags)
    }

    /// Answers the prompt query from an attempt to derive the status: the
    /// rendered line where there is a status, and nothing where there is
    /// none.
    pub fn prompt(&self, attempt: Result<Option<JjStatus>, Error>, options: &FormatOptions) -> (answer:
        Option<String>)
        ensures
            match (shown(attempt), answer) {
                (Some(status), Some(line)) => line@ == prompt_line(&status, options),
                (None, None) => true,
                _ => false,
            },
    {
        match attempt {
            Ok(Some(status)) => Some(format_prompt(&status, options)),
            _ => None,
        }
    }
}

/// What is shown of a change identifier is no longer than the identifier
/// and than the length asked for, and its unique part is no longer than
/// what is shown.
pub proof fn lemma_change_id_parts(status: &JjStatus, options: &FormatOptions)
    ensures
        ({
            let shown = clipped(status.change_id@, options.change_id_len as int);
            let unique = clipped(shown, status.change_id_prefix_len as int);
            &&& shown.len() <= status.change_id@.len()
            &&& shown.len() <= options.change_id_len
            &&& unique.len() <= shown.len()
            &&& unique.len() <= status.change_id_prefix_len
            &&& unique + shown.skip(unique.len() as int) == shown
        }),
{
    let shown = clipped(status.change_id@, options.change_id_len as int);
    lemma_clipped(status.change_id@, options.change_id_len as int);
    lemma_clipped(shown, status.change_id_prefix_len as int);
}

/// A description within the limit is shown as it is; a longer one keeps
/// its first characters up to the limit, and one ellipsis follows them.
pub proof fn lemma_shortened(description: Seq<char>, limit: nat)
    ensures
        description.len() <= limit ==> shortened(description, limit as int) == description,
        description.len() > limit ==> shortened(description, limit as int) == description.take(
            limit as int,
        ).push('\u{2026}'),
{
    if description.len() > limit {
        assert(shortened(description, limit as int) =~= description.take(limit as int).push(
            '\u{2026}',
        ));
    }
}

} // verus!
