use themec::color::{Color, RgbColor};
use themec::error::{CompileError, ThemeError};
use themec::format::{
    lookup_color, palette_hex_pairs, parse_palette, split_input, Background, ParsedTheme, Theme,
};
use themec::highlight::{parse_highlight, parse_style_options};
use themec::palette::palette_get_index;

fn entries(pairs: &[(&str, &str)]) -> Vec<(String, Option<String>)> {
    pairs
        .iter()
        .map(|(k, v)| (k.to_string(), Some(v.to_string())))
        .collect()
}

fn resolve(pairs: &[(&str, &str)]) -> indexmap::IndexMap<String, Color> {
    parse_palette(&entries(pairs), &None).unwrap()
}

#[test]
fn palette_resolves_literals_and_derived_entries() {
    let palette = resolve(&[("red", "#ff0000"), ("dark_red", "darken(red, 0.2)")]);
    assert_eq!(lookup_color("red", &palette).unwrap().hex(), "#ff0000");
    assert_eq!(lookup_color("dark_red", &palette).unwrap().hex(), "#990000");
}

#[test]
fn palette_keeps_insertion_order() {
    let palette = resolve(&[("one", "#111111"), ("two", "#222222"), ("three", "#333333")]);
    assert_eq!(palette_get_index(&palette, 0).unwrap().0, "one");
    assert_eq!(palette_get_index(&palette, 1).unwrap().0, "two");
    assert_eq!(palette_get_index(&palette, 2).unwrap().0, "three");
    assert!(palette_get_index(&palette, 3).is_none());
}

#[test]
fn palette_hex_pairs_follow_declaration_order() {
    let palette = resolve(&[("red", "#ff0000"), ("dark_red", "darken(red, 0.2)")]);
    assert_eq!(
        palette_hex_pairs(&palette),
        vec![
            ("red".to_string(), "#ff0000".to_string()),
            ("dark_red".to_string(), "#990000".to_string()),
        ]
    );
}

#[test]
fn palette_duplicates_verbatim_references() {
    let palette = resolve(&[("base", "#123456"), ("alias", "base")]);
    assert_eq!(lookup_color("alias", &palette).unwrap().hex(), "#123456");
}

#[test]
fn hsl_expressions_resolve_to_expected_hex() {
    let palette = resolve(&[
        ("night", "hsl(230, 0.2, 0.11)"),
        ("red_low", "hsl(0, 1.0, 0.5)"),
        ("red_high", "hsl(360, 1.0, 0.5)"),
    ]);
    assert_eq!(lookup_color("night", &palette).unwrap().hex(), "#161822");
    assert_eq!(lookup_color("red_low", &palette).unwrap().hex(), "#ff0000");
    assert_eq!(lookup_color("red_high", &palette).unwrap().hex(), "#ff0000");
}

#[test]
fn hsl_rejects_out_of_range_hue() {
    let r = parse_palette(&entries(&[("c", "hsl(361, 1.0, 0.5)")]), &None);
    assert!(matches!(r, Err(CompileError::Hsl(_))));
}

#[test]
fn undeclared_reference_fails_with_missing_color() {
    let r = parse_palette(&entries(&[("a", "adjust(missing, 0.1, 0.1)")]), &None);
    match r {
        Err(CompileError::Theme(ThemeError::MissingColor { color })) => {
            assert_eq!(color, "missing")
        }
        other => panic!("expected a missing reference, got {:?}", other.err()),
    }
}

#[test]
fn forward_references_are_not_resolved() {
    // later entries are invisible to earlier ones, by design
    let r = parse_palette(
        &entries(&[("a", "lighten(b, 0.1)"), ("b", "#102030")]),
        &None,
    );
    match r {
        Err(CompileError::Theme(ThemeError::MissingColor { color })) => assert_eq!(color, "b"),
        other => panic!("expected a missing reference, got {:?}", other.err()),
    }
}

#[test]
fn mix_expression_blends_two_entries() {
    let palette = resolve(&[
        ("black", "#000000"),
        ("white", "#ffffff"),
        ("even", "mix(black, white, 0.5)"),
        ("all_first", "mix(black, white, 1.0)"),
    ]);
    assert_eq!(lookup_color("even", &palette).unwrap().hex(), "#7f7f7f");
    assert_eq!(lookup_color("all_first", &palette).unwrap().hex(), "#000000");
}

#[test]
fn mix_expression_rejects_bad_weight() {
    let r = parse_palette(
        &entries(&[("a", "#000000"), ("b", "mix(a, a, 1.5)")]),
        &None,
    );
    assert!(matches!(r, Err(CompileError::Rgb(_))));
}

#[test]
fn expression_shape_errors_name_the_offender() {
    // unrecognized function
    match parse_palette(&entries(&[("a", "shade(x, 0.5)")]), &None) {
        Err(CompileError::Theme(ThemeError::InvalidColor { color })) => {
            assert_eq!(color, "shade(x, 0.5)")
        }
        other => panic!("unexpected {:?}", other.err()),
    }
    // wrong argument count: the inner capture is reported
    match parse_palette(&entries(&[("a", "hsl(1, 2)")]), &None) {
        Err(CompileError::Theme(ThemeError::InvalidColor { color })) => assert_eq!(color, "1, 2"),
        other => panic!("unexpected {:?}", other.err()),
    }
    // a non-numeric argument
    match parse_palette(&entries(&[("a", "hsl(1, x, 3)")]), &None) {
        Err(CompileError::Theme(ThemeError::InvalidColor { color })) => assert_eq!(color, "x"),
        other => panic!("unexpected {:?}", other.err()),
    }
}

#[test]
fn function_names_match_case_insensitively() {
    let palette = resolve(&[("a", "HSL(0, 1.0, 0.5)"), ("b", "DaRkEn(a, 0.2)")]);
    assert_eq!(lookup_color("a", &palette).unwrap().hex(), "#ff0000");
    assert_eq!(lookup_color("b", &palette).unwrap().hex(), "#990000");
}

#[test]
fn hue_references_use_the_hue_table() {
    let hues = Some(vec![("brand".to_string(), 230_000_000i64)]);
    let palette = parse_palette(&entries(&[("c", "hsl($brand, 0.2, 0.11)")]), &hues).unwrap();
    assert_eq!(lookup_color("c", &palette).unwrap().hex(), "#161822");
}

#[test]
fn hue_reference_without_table_is_an_error() {
    match parse_palette(&entries(&[("c", "hsl($brand, 0.2, 0.11)")]), &None) {
        Err(CompileError::Theme(ThemeError::MissingHueSection { hue })) => {
            assert_eq!(hue, "brand")
        }
        other => panic!("unexpected {:?}", other.err()),
    }
}

#[test]
fn unknown_hue_name_is_an_error() {
    let hues = Some(vec![("other".to_string(), 10_000_000i64)]);
    match parse_palette(&entries(&[("c", "hsl($brand, 0.2, 0.11)")]), &hues) {
        Err(CompileError::Theme(ThemeError::MissingHue { hue })) => assert_eq!(hue, "brand"),
        other => panic!("unexpected {:?}", other.err()),
    }
}

#[test]
fn split_input_trims_and_counts() {
    let parts = split_input("  a ,b,  c  ", 3).unwrap();
    assert_eq!(parts, vec!["a".to_string(), "b".to_string(), "c".to_string()]);
    match split_input("a, b", 3) {
        Err(ThemeError::InvalidColor { color }) => assert_eq!(color, "a, b"),
        other => panic!("unexpected {:?}", other.err()),
    }
}

#[test]
fn background_tokens_validate_case_insensitively() {
    assert_eq!(Background::new("dark").unwrap(), Background::Dark);
    assert_eq!(Background::new("DARK").unwrap(), Background::Dark);
    assert_eq!(Background::new("Light").unwrap(), Background::Light);
    assert_eq!(Background::new("dark").unwrap().text(), "dark");
    assert_eq!(Background::new("light").unwrap().text(), "light");
    match Background::new("blue") {
        Err(ThemeError::InvalidBackground { background }) => assert_eq!(background, "blue"),
        other => panic!("unexpected {:?}", other.err()),
    }
}

#[test]
fn style_options_render_in_input_order() {
    assert_eq!(parse_style_options("bi").unwrap(), "bold = true, italic = true");
    assert_eq!(
        parse_style_options("rb").unwrap(),
        "reverse = true, bold = true"
    );
    assert_eq!(parse_style_options("-").unwrap(), "");
    assert_eq!(parse_style_options("").unwrap(), "");
    assert_eq!(
        parse_style_options("bb").unwrap(),
        "bold = true, bold = true"
    );
    assert_eq!(
        parse_style_options("cdthosn").unwrap(),
        "undercurl = true, underdouble = true, underdotted = true, underdashed = true, \
         standout = true, strikethrough = true, nocombine = true"
    );
    assert_eq!(parse_style_options("u").unwrap(), "underline = true");
}

#[test]
fn unknown_style_flag_is_an_error() {
    match parse_style_options("bz") {
        Err(ThemeError::UnknownStyleOption { option }) => assert_eq!(option, "z"),
        other => panic!("unexpected {:?}", other.err()),
    }
}

#[test]
fn highlight_with_style_flags_compiles() {
    let palette = resolve(&[("red", "#ff0000")]);
    let text = parse_highlight("Test", "red - bi", &palette).unwrap();
    assert_eq!(
        text,
        "\n    hl(0, \"Test\", { fg = \"#ff0000\", bg = \"NONE\", bold = true, italic = true })"
    );
}

#[test]
fn highlight_with_unknown_flag_fails() {
    let palette = resolve(&[("red", "#ff0000")]);
    match parse_highlight("Test", "red - bz", &palette) {
        Err(ThemeError::UnknownStyleOption { option }) => assert_eq!(option, "z"),
        other => panic!("unexpected {:?}", other.err()),
    }
}

#[test]
fn link_directive_skips_palette_lookup() {
    let palette = resolve(&[]);
    let text = parse_highlight("X", "link:Comment", &palette).unwrap();
    assert_eq!(text, "\n    hl(0, \"X\", { link = \"Comment\" })");
}

#[test]
fn highlight_token_shapes() {
    let palette = resolve(&[("fg", "#010203"), ("bg", "#040506"), ("sp", "#070809")]);
    assert_eq!(
        parse_highlight("A", "fg", &palette).unwrap(),
        "\n    hl(0, \"A\", { fg = \"#010203\", bg = \"NONE\" })"
    );
    assert_eq!(
        parse_highlight("B", "fg bg", &palette).unwrap(),
        "\n    hl(0, \"B\", { fg = \"#010203\", bg = \"#040506\" })"
    );
    assert_eq!(
        parse_highlight("C", "fg  bg   b", &palette).unwrap(),
        "\n    hl(0, \"C\", { fg = \"#010203\", bg = \"#040506\", bold = true })"
    );
    assert_eq!(
        parse_highlight("D", "fg bg b sp", &palette).unwrap(),
        "\n    hl(0, \"D\", { fg = \"#010203\", bg = \"#040506\", sp = \"#070809\", bold = true })"
    );
    match parse_highlight("E", "fg bg b sp extra", &palette) {
        Err(ThemeError::InvalidHighlight { highlight }) => assert_eq!(highlight, "fg bg b sp extra"),
        other => panic!("unexpected {:?}", other.err()),
    }
}

#[test]
fn highlight_unknown_color_fails() {
    let palette = resolve(&[]);
    match parse_highlight("A", "nope", &palette) {
        Err(ThemeError::MissingColor { color }) => assert_eq!(color, "nope"),
        other => panic!("unexpected {:?}", other.err()),
    }
}

fn sample_parsed() -> ParsedTheme {
    ParsedTheme {
        name: "sample".to_string(),
        background: "Dark".to_string(),
        hues: None,
        colors: entries(&[("red", "#ff0000"), ("dark_red", "darken(red, 0.2)")]),
        highlights: entries(&[("Normal", "red dark_red"), ("Comment", "link:Normal")]),
        globals: entries(&[("terminal_color_0", "dark_red"), ("extra", "lighten(red, 0.0)")]),
    }
}

#[test]
fn theme_assembles_all_sections() {
    let theme = Theme::new(sample_parsed()).unwrap();
    assert_eq!(theme.name, "sample");
    assert_eq!(theme.background, Background::Dark);
    assert_eq!(lookup_color("dark_red", &theme.palette).unwrap().hex(), "#990000");
    assert_eq!(
        theme.highlights,
        vec![
            "\n    hl(0, \"Normal\", { fg = \"#ff0000\", bg = \"#990000\" })".to_string(),
            "\n    hl(0, \"Comment\", { link = \"Normal\" })".to_string(),
        ]
    );
    assert_eq!(
        theme.globals,
        vec![
            ("terminal_color_0".to_string(), "#990000".to_string()),
            ("extra".to_string(), "#ff0000".to_string()),
        ]
    );
}

#[test]
fn theme_rejects_bad_background_after_sections_resolve() {
    let mut parsed = sample_parsed();
    parsed.background = "blueish".to_string();
    match Theme::new(parsed) {
        Err(CompileError::Theme(ThemeError::InvalidBackground { background })) => {
            assert_eq!(background, "blueish")
        }
        other => panic!("unexpected {:?}", other.err()),
    }
}

#[test]
fn theme_reports_missing_values() {
    let mut parsed = sample_parsed();
    parsed.colors.push(("broken".to_string(), None));
    assert!(matches!(
        Theme::new(parsed),
        Err(CompileError::Theme(ThemeError::MissingValue))
    ));
}

#[test]
fn theme_palette_errors_win_over_background_errors() {
    let mut parsed = sample_parsed();
    parsed.background = "blueish".to_string();
    parsed.colors = entries(&[("a", "nonsense")]);
    assert!(matches!(
        Theme::new(parsed),
        Err(CompileError::Theme(ThemeError::InvalidColor { .. }))
    ));
}

#[test]
fn empty_sections_compile_to_an_empty_theme() {
    let theme = Theme::new(ParsedTheme {
        name: "bare".to_string(),
        background: "light".to_string(),
        hues: None,
        colors: vec![],
        highlights: vec![],
        globals: vec![],
    })
    .unwrap();
    assert_eq!(theme.background, Background::Light);
    assert!(theme.highlights.is_empty());
    assert!(theme.globals.is_empty());
    assert!(palette_hex_pairs(&theme.palette).is_empty());
}

#[test]
fn repeated_key_keeps_its_place_and_takes_the_new_value() {
    let palette = resolve(&[("a", "#111111"), ("b", "#222222"), ("a", "#333333")]);
    assert_eq!(
        palette_hex_pairs(&palette),
        vec![
            ("a".to_string(), "#333333".to_string()),
            ("b".to_string(), "#222222".to_string()),
        ]
    );
}

#[test]
fn numbers_parse_on_the_micro_grid() {
    assert_eq!(themec::text::parse_micro("1.5"), Some(1_500_000));
    assert_eq!(themec::text::parse_micro("-0.25"), Some(-250_000));
    assert_eq!(themec::text::parse_micro(".5"), Some(500_000));
    assert_eq!(themec::text::parse_micro("5."), Some(5_000_000));
    assert_eq!(themec::text::parse_micro("+360"), Some(360_000_000));
    assert_eq!(themec::text::parse_micro("0.1234567"), Some(123_456));
    assert_eq!(themec::text::parse_micro(""), None);
    assert_eq!(themec::text::parse_micro("."), None);
    assert_eq!(themec::text::parse_micro("1.2.3"), None);
    assert_eq!(themec::text::parse_micro("abc"), None);
}
