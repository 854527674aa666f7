use nu_plugin_jj::jj::{Bookmark, JjStatus};
use nu_plugin_jj::plugin::{color_to_ansi, format_prompt, parse_non_negative_usize, FormatOptions};

fn strip_ansi(input: &str) -> String {
    let mut out = String::new();
    let mut chars = input.chars().peekable();
    while let Some(ch) = chars.next() {
        if ch == '\u{1b}' && chars.peek() == Some(&'[') {
            chars.next();
            for c in chars.by_ref() {
                if c == 'm' {
                    break;
                }
            }
        } else {
            out.push(ch);
        }
    }
    out
}

fn test_status(description: &str) -> JjStatus {
    JjStatus {
        repo_root: "/tmp/repo".to_string(),
        change_id: "abcdefgh".to_string(),
        change_id_prefix_len: 4,
        bookmarks: vec![Bookmark {
            name: "main".to_string(),
            distance: 0,
        }],
        description: description.to_string(),
        empty: true,
        conflict: true,
        divergent: false,
        hidden: true,
        immutable: false,
        has_remote: true,
        is_synced: true,
    }
}

fn test_options(desc_len: usize) -> FormatOptions {
    FormatOptions {
        icon: "*".to_string(),
        icon_color: "blue".to_string(),
        change_id_color: "bold_magenta".to_string(),
        change_id_rest_color: "dim_magenta".to_string(),
        bookmark_color: "magenta".to_string(),
        status_color: "green".to_string(),
        conflict: "C".to_string(),
        divergent: "D".to_string(),
        hidden: "H".to_string(),
        immutable: "I".to_string(),
        change_id_len: 8,
        empty_text: "(empty)".to_string(),
        no_desc_text: "(no description set)".to_string(),
        desc_len,
    }
}

#[test]
fn rejects_negative_lengths() {
    let err = parse_non_negative_usize("desc-len", -1).unwrap_err();
    assert!(err.message().contains("non-negative"));
}

#[test]
fn parses_non_negative_lengths() {
    let value = parse_non_negative_usize("change-id-len", 12).unwrap();
    assert_eq!(value, 12);
}

#[test]
fn bright_hex_applies_modifier() {
    assert_eq!(color_to_ansi("bright_#112233"), "\x1b[1;38;2;17;34;51m");
}

#[test]
fn bright_named_color_uses_bright_ansi() {
    assert_eq!(color_to_ansi("bright_red"), "\x1b[91m");
}

#[test]
fn allows_zero_lengths() {
    let value = parse_non_negative_usize("desc-len", 0).unwrap();
    assert_eq!(value, 0);
}

#[test]
fn invalid_color_falls_back_to_magenta() {
    assert_eq!(color_to_ansi("unknown"), "\x1b[35m");
    assert_eq!(color_to_ansi("bad_red"), "\x1b[35m");
}

#[test]
fn format_output_order_is_stable() {
    let rendered = format_prompt(&test_status("desc"), &test_options(29));
    let plain = strip_ansi(&rendered);
    assert_eq!(plain, "* abcdefgh main CH (empty) desc");
}

#[test]
fn desc_len_boundaries_work() {
    let over = strip_ansi(&format_prompt(&test_status("hello"), &test_options(4)));
    assert!(over.ends_with("hell…"));

    let exact = strip_ansi(&format_prompt(&test_status("hello"), &test_options(5)));
    assert!(exact.ends_with("hello"));

    let zero = strip_ansi(&format_prompt(&test_status("hello"), &test_options(0)));
    assert!(zero.ends_with("…"));
}

#[test]
fn rendered_line_carries_the_escapes() {
    let rendered = format_prompt(&test_status("desc"), &test_options(29));
    assert_eq!(
        rendered,
        "\x1b[34m*\x1b[0m \x1b[1;35mabcd\x1b[0m\x1b[2;35mefgh\x1b[0m \x1b[35mmain\x1b[0m CH \x1b[32m(empty)\x1b[0m \x1b[32mdesc\x1b[0m"
    );
}
