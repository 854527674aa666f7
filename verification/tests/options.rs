use nu_plugin_jj::error::Error;
use nu_plugin_jj::jj::JjStatus;
use nu_plugin_jj::plugin::{
    format_prompt, join_spaced, parse_non_negative_usize, resolve_options, shorten, FormatFlags,
    FormatOptions, JjPlugin,
};

fn no_flags() -> FormatFlags {
    FormatFlags {
        icon: None,
        icon_color: None,
        change_id_color: None,
        change_id_rest_color: None,
        bookmark_color: None,
        status_color: None,
        conflict: None,
        divergent: None,
        hidden: None,
        immutable: None,
        change_id_len: None,
        empty_text: None,
        no_desc_text: None,
        desc_len: None,
    }
}

fn plain_options() -> FormatOptions {
    FormatOptions {
        icon: "@".to_string(),
        icon_color: "blue".to_string(),
        change_id_color: "bold_magenta".to_string(),
        change_id_rest_color: "dim_magenta".to_string(),
        bookmark_color: "magenta".to_string(),
        status_color: "green".to_string(),
        conflict: "C".to_string(),
        divergent: "D".to_string(),
        hidden: "H".to_string(),
        immutable: "I".to_string(),
        change_id_len: 8,
        empty_text: "(empty)".to_string(),
        no_desc_text: "(no description set)".to_string(),
        desc_len: 29,
    }
}

fn bare_status() -> JjStatus {
    JjStatus {
        repo_root: "/r".to_string(),
        change_id: "klmnopqr".to_string(),
        change_id_prefix_len: 2,
        bookmarks: vec![],
        description: String::new(),
        empty: false,
        conflict: false,
        divergent: false,
        hidden: false,
        immutable: false,
        has_remote: false,
        is_synced: true,
    }
}

#[test]
fn defaults_fill_what_was_not_given() {
    let options = resolve_options(no_flags()).unwrap();
    assert_eq!(options.icon, "\u{f15c6}");
    assert_eq!(options.icon_color, "blue");
    assert_eq!(options.change_id_color, "bold_magenta");
    assert_eq!(options.change_id_rest_color, "dim_magenta");
    assert_eq!(options.bookmark_color, "magenta");
    assert_eq!(options.status_color, "green");
    assert_eq!(options.conflict, "💥");
    assert_eq!(options.divergent, "🚧");
    assert_eq!(options.hidden, "👻");
    assert_eq!(options.immutable, "🔒");
    assert_eq!(options.change_id_len, 8);
    assert_eq!(options.empty_text, "(empty)");
    assert_eq!(options.no_desc_text, "(no description set)");
    assert_eq!(options.desc_len, 29);
}

#[test]
fn what_was_given_is_kept() {
    let mut flags = no_flags();
    flags.icon = Some("jj".to_string());
    flags.icon_color = Some("#102030".to_string());
    flags.change_id_color = Some("red".to_string());
    flags.change_id_rest_color = Some("dim_red".to_string());
    flags.bookmark_color = Some("cyan".to_string());
    flags.status_color = Some("yellow".to_string());
    flags.conflict = Some("!".to_string());
    flags.divergent = Some("~".to_string());
    flags.hidden = Some("?".to_string());
    flags.immutable = Some("#".to_string());
    flags.change_id_len = Some(4);
    flags.empty_text = Some("nothing".to_string());
    flags.no_desc_text = Some("".to_string());
    flags.desc_len = Some(0);
    let options = resolve_options(flags).unwrap();
    assert_eq!(options.icon, "jj");
    assert_eq!(options.icon_color, "#102030");
    assert_eq!(options.change_id_color, "red");
    assert_eq!(options.change_id_rest_color, "dim_red");
    assert_eq!(options.bookmark_color, "cyan");
    assert_eq!(options.status_color, "yellow");
    assert_eq!(options.conflict, "!");
    assert_eq!(options.divergent, "~");
    assert_eq!(options.hidden, "?");
    assert_eq!(options.immutable, "#");
    assert_eq!(options.change_id_len, 4);
    assert_eq!(options.empty_text, "nothing");
    assert_eq!(options.no_desc_text, "");
    assert_eq!(options.desc_len, 0);
}

#[test]
fn a_negative_length_is_refused_by_name() {
    let mut flags = no_flags();
    flags.desc_len = Some(-5);
    let err = resolve_options(flags).unwrap_err();
    assert!(matches!(&err, Error::NegativeOption(name) if name == "desc-len"));
    assert_eq!(err.message(), "--desc-len must be non-negative");

    let mut flags = no_flags();
    flags.change_id_len = Some(i64::MIN);
    flags.desc_len = Some(-1);
    let err = resolve_options(flags).unwrap_err();
    assert_eq!(err.message(), "--change-id-len must be non-negative");
}

#[test]
fn every_length_in_range_is_taken_unchanged() {
    for value in [0i64, 1, 7, 29, 1000, i32::MAX as i64] {
        assert_eq!(parse_non_negative_usize("desc-len", value).unwrap(), value as usize);
    }
    for value in [-1i64, -2, -1000, i64::MIN] {
        let err = parse_non_negative_usize("width", value).unwrap_err();
        assert!(matches!(&err, Error::NegativeOption(name) if name == "width"));
        assert!(err.message().contains("width"));
    }
    match parse_non_negative_usize("desc-len", i64::MAX) {
        Ok(value) => assert_eq!(value as u128, i64::MAX as u128),
        Err(err) => assert_eq!(err.message(), "--desc-len is too large"),
    }
}

#[test]
fn error_texts_are_fixed() {
    assert_eq!(Error::Jj("load repo: gone".to_string()).message(), "jj: load repo: gone");
    assert_eq!(Error::NegativeOption("n".to_string()).message(), "--n must be non-negative");
    assert_eq!(Error::OptionTooLarge("n".to_string()).message(), "--n is too large");
}

#[test]
fn a_failed_attempt_shows_nothing() {
    let plugin = JjPlugin;
    assert!(plugin.status(Ok(None)).is_none());
    assert!(plugin.status(Err(Error::Jj("load workspace".to_string()))).is_none());
    let shown = plugin.status(Ok(Some(bare_status()))).unwrap();
    assert_eq!(shown.change_id, "klmnopqr");
    assert!(plugin.prompt(Ok(None), &plain_options()).is_none());
    assert!(plugin.prompt(Err(Error::Jj("load repo".to_string())), &plain_options()).is_none());
    assert_eq!(
        plugin.prompt(Ok(Some(bare_status())), &plain_options()).unwrap(),
        format_prompt(&bare_status(), &plain_options())
    );
}

#[test]
fn the_plugin_names_its_two_queries() {
    assert_eq!(JjPlugin.commands(), vec!["jj-prompt".to_string(), "jj-prompt format".to_string()]);
}

#[test]
fn options_are_refused_before_any_status_is_looked_at() {
    let mut flags = no_flags();
    flags.change_id_len = Some(-1);
    let err = JjPlugin.options(flags).unwrap_err();
    assert_eq!(err.message(), "--change-id-len must be non-negative");
    assert_eq!(JjPlugin.options(no_flags()).unwrap().desc_len, 29);
}

#[test]
fn a_bare_status_shows_icon_change_and_placeholder() {
    assert_eq!(
        format_prompt(&bare_status(), &plain_options()),
        "\x1b[34m@\x1b[0m \x1b[1;35mkl\x1b[0m\x1b[2;35mmnopqr\x1b[0m \x1b[32m(no description set)\x1b[0m"
    );
}

#[test]
fn the_change_id_is_cut_and_split() {
    let mut options = plain_options();
    options.change_id_len = 4;
    let mut status = bare_status();
    status.change_id_prefix_len = 6;
    status.description = "d".to_string();
    assert_eq!(
        format_prompt(&status, &options),
        "\x1b[34m@\x1b[0m \x1b[1;35mklmn\x1b[0m\x1b[2;35m\x1b[0m \x1b[32md\x1b[0m"
    );
    options.change_id_len = 0;
    assert_eq!(
        format_prompt(&status, &options),
        "\x1b[34m@\x1b[0m \x1b[1;35m\x1b[0m\x1b[2;35m\x1b[0m \x1b[32md\x1b[0m"
    );
    options.change_id_len = 100;
    status.change_id_prefix_len = 0;
    assert_eq!(
        format_prompt(&status, &options),
        "\x1b[34m@\x1b[0m \x1b[1;35m\x1b[0m\x1b[2;35mklmnopqr\x1b[0m \x1b[32md\x1b[0m"
    );
}

#[test]
fn flags_come_in_a_fixed_order() {
    let mut status = bare_status();
    status.description = "d".to_string();
    status.immutable = true;
    status.divergent = true;
    status.hidden = true;
    status.conflict = true;
    let line = format_prompt(&status, &plain_options());
    assert!(line.contains(" CDHI "));
    status.conflict = false;
    status.hidden = false;
    assert!(format_prompt(&status, &plain_options()).contains(" DI "));
    // A flag whose symbol is empty shows nothing, and the segment goes.
    let mut options = plain_options();
    options.divergent = String::new();
    options.immutable = String::new();
    assert_eq!(
        format_prompt(&status, &options),
        "\x1b[34m@\x1b[0m \x1b[1;35mkl\x1b[0m\x1b[2;35mmnopqr\x1b[0m \x1b[32md\x1b[0m"
    );
}

#[test]
fn descriptions_are_cut_by_characters() {
    assert_eq!(shorten("hello", 4), "hell…");
    assert_eq!(shorten("hello", 5), "hello");
    assert_eq!(shorten("hello", 6), "hello");
    assert_eq!(shorten("hello", 0), "…");
    assert_eq!(shorten("", 0), "");
    assert_eq!(shorten("größer", 3), "grö…");
    assert_eq!(shorten("日本語のコミット", 4), "日本語の…");
}

#[test]
fn parts_are_joined_with_one_space() {
    assert_eq!(join_spaced(&vec![]), "");
    assert_eq!(join_spaced(&vec!["a".to_string()]), "a");
    assert_eq!(join_spaced(&vec!["a".to_string(), "".to_string(), "b".to_string()]), "a  b");
}
