use nu_plugin_jj::color::{
    color_to_ansi, parse_color, render_color, Base, Color, Modifier, Name,
};

#[test]
fn named_colors_use_the_plain_table() {
    assert_eq!(color_to_ansi("black"), "\x1b[30m");
    assert_eq!(color_to_ansi("red"), "\x1b[31m");
    assert_eq!(color_to_ansi("green"), "\x1b[32m");
    assert_eq!(color_to_ansi("yellow"), "\x1b[33m");
    assert_eq!(color_to_ansi("blue"), "\x1b[34m");
    assert_eq!(color_to_ansi("magenta"), "\x1b[35m");
    assert_eq!(color_to_ansi("cyan"), "\x1b[36m");
    assert_eq!(color_to_ansi("white"), "\x1b[37m");
}

#[test]
fn bright_names_use_the_bright_table() {
    assert_eq!(color_to_ansi("bright_black"), "\x1b[90m");
    assert_eq!(color_to_ansi("bright_green"), "\x1b[92m");
    assert_eq!(color_to_ansi("bright_yellow"), "\x1b[93m");
    assert_eq!(color_to_ansi("bright_blue"), "\x1b[94m");
    assert_eq!(color_to_ansi("bright_magenta"), "\x1b[95m");
    assert_eq!(color_to_ansi("bright_cyan"), "\x1b[96m");
    assert_eq!(color_to_ansi("bright_white"), "\x1b[97m");
}

#[test]
fn each_modifier_has_its_attribute() {
    assert_eq!(color_to_ansi("bold_magenta"), "\x1b[1;35m");
    assert_eq!(color_to_ansi("dim_magenta"), "\x1b[2;35m");
    assert_eq!(color_to_ansi("italic_green"), "\x1b[3;32m");
    assert_eq!(color_to_ansi("underline_blue"), "\x1b[4;34m");
}

#[test]
fn hex_triplets_are_written_in_decimal() {
    assert_eq!(color_to_ansi("#ff0080"), "\x1b[38;2;255;0;128m");
    assert_eq!(color_to_ansi("#FFAA09"), "\x1b[38;2;255;170;9m");
    assert_eq!(color_to_ansi("#000000"), "\x1b[38;2;0;0;0m");
    assert_eq!(color_to_ansi("#0a6400"), "\x1b[38;2;10;100;0m");
}

#[test]
fn hex_triplets_take_each_modifier() {
    assert_eq!(color_to_ansi("bold_#010203"), "\x1b[1;38;2;1;2;3m");
    assert_eq!(color_to_ansi("dim_#010203"), "\x1b[2;38;2;1;2;3m");
    assert_eq!(color_to_ansi("italic_#010203"), "\x1b[3;38;2;1;2;3m");
    assert_eq!(color_to_ansi("underline_#010203"), "\x1b[4;38;2;1;2;3m");
    assert_eq!(color_to_ansi("bright_#010203"), "\x1b[1;38;2;1;2;3m");
}

#[test]
fn a_triplet_with_a_bad_digit_is_plain_magenta() {
    for spec in [
        "#gggggg",
        "#gg1234",
        "#12zz34",
        "#1234-1",
        "#+f+0+a",
        "#é12345",
        "#12345 ",
        "#0x1020",
        "bold_#gggggg",
        "bright_#12345g",
        "dim_#+f0000",
    ] {
        assert_eq!(color_to_ansi(spec), "\x1b[35m", "{spec:?}");
        assert!(parse_color(spec).is_none(), "{spec:?}");
    }
}

#[test]
fn hex_digits_count_in_either_case() {
    assert_eq!(color_to_ansi("#aAbBcC"), "\x1b[38;2;170;187;204m");
    assert_eq!(color_to_ansi("#09afAF"), "\x1b[38;2;9;175;175m");
    assert_eq!(color_to_ansi("italic_#fFfFfF"), "\x1b[3;38;2;255;255;255m");
}

#[test]
fn whatever_is_not_recognized_is_plain_magenta() {
    for spec in [
        "",
        "_",
        "_red",
        "bold_",
        "bold_unknown",
        "bright_unknown",
        "bold_red_x",
        "bold_#11_233",
        "#12345",
        "#1234567",
        "bold_#12345",
        "BOLD_red",
        "Red",
        "bold red",
        "bold__red",
    ] {
        assert_eq!(color_to_ansi(spec), "\x1b[35m", "{spec:?}");
    }
}

#[test]
fn resolving_twice_gives_the_same() {
    for spec in ["bright_#112233", "dim_cyan", "nothing", "#a0b0c0"] {
        assert_eq!(color_to_ansi(spec), color_to_ansi(spec));
    }
}

#[test]
fn parse_color_tells_modifier_and_base() {
    let color = parse_color("underline_#1020ff").unwrap();
    assert!(matches!(color.modifier, Modifier::Underline));
    assert!(matches!(color.base, Base::Rgb(16, 32, 255)));
    let color = parse_color("white").unwrap();
    assert!(matches!(color.modifier, Modifier::Plain));
    assert!(matches!(color.base, Base::Named(Name::White)));
    assert!(parse_color("bold_nothing").is_none());
}

#[test]
fn render_color_writes_what_was_parsed() {
    let color = Color { modifier: Modifier::Bright, base: Base::Named(Name::Blue) };
    assert_eq!(render_color(color), "\x1b[94m");
    let color = Color { modifier: Modifier::Dim, base: Base::Rgb(255, 10, 0) };
    assert_eq!(render_color(color), "\x1b[2;38;2;255;10;0m");
}

#[test]
fn each_name_has_its_place_in_both_tables() {
    let names = [
        Name::Black,
        Name::Red,
        Name::Green,
        Name::Yellow,
        Name::Blue,
        Name::Magenta,
        Name::Cyan,
        Name::White,
    ];
    for (place, name) in names.into_iter().enumerate() {
        let plain = Color { modifier: Modifier::Plain, base: Base::Named(name) };
        assert_eq!(render_color(plain), format!("\x1b[3{place}m"));
        let bright = Color { modifier: Modifier::Bright, base: Base::Named(name) };
        assert_eq!(render_color(bright), format!("\x1b[9{place}m"));
        let bold = Color { modifier: Modifier::Bold, base: Base::Named(name) };
        assert_eq!(render_color(bold), format!("\x1b[1;3{place}m"));
    }
}
