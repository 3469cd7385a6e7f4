use treemd::tui::cache::{LineCache, CACHE_LIMIT};
use treemd::tui::code::{adapt, draw_line, expand_tabs, split_code_lines};
use treemd::tui::engine::TokenStyle;
use treemd::tui::style::{Color, Line, Span, Style};
use treemd::tui::syntax::{
    cache_key, load_code_theme, resolve_background, CodeBlockBackground, SyntaxHighlighter,
    ThemeFile, DATE_OUT_OF_RANGE, DEFAULT_CODE_THEME,
};
use treemd::tui::terminal_compat::ColorMode;
use treemd::tui::theme::rgb_to_256;
use treemd::tui::theme_dates::dates_are_plain;

fn theme_file(name: &str, background: &str) -> ThemeFile {
    let content = format!(
        "<?xml version=\"1.0\" encoding=\"UTF-8\"?>\n<plist version=\"1.0\"><dict>\
         <key>name</key><string>{name}</string><key>settings</key><array><dict>\
         <key>settings</key><dict><key>background</key><string>{background}</string>\
         <key>foreground</key><string>#ffffff</string></dict></dict></array></dict></plist>"
    );
    ThemeFile {
        name: Some(name.to_string()),
        content: content.into_bytes(),
    }
}

fn highlighter(mode: ColorMode) -> SyntaxHighlighter {
    SyntaxHighlighter::new(
        DEFAULT_CODE_THEME,
        &[],
        CodeBlockBackground::FromTheme,
        mode,
    )
}

fn background_of_theme(name: &str, files: &[ThemeFile]) -> Option<Color> {
    SyntaxHighlighter::new(name, files, CodeBlockBackground::FromTheme, ColorMode::Rgb)
        .code_block_bg()
}

fn shown(line: &Line) -> String {
    line.spans.iter().map(|s| s.content.as_str()).collect()
}

fn same(a: &[Line], b: &[Line]) -> bool {
    a.len() == b.len()
        && a.iter().zip(b).all(|(x, y)| {
            x.spans.len() == y.spans.len()
                && x.spans
                    .iter()
                    .zip(&y.spans)
                    .all(|(s, t)| s.content == t.content && s.style == t.style)
        })
}

#[test]
fn background_comes_from_the_theme_unless_configured() {
    assert_eq!(
        background_of_theme(DEFAULT_CODE_THEME, &[]),
        Some(Color::Rgb(43, 48, 59))
    );
    let off = SyntaxHighlighter::new("x", &[], CodeBlockBackground::Off, ColorMode::Rgb);
    assert_eq!(off.code_block_bg(), None);
    let red = CodeBlockBackground::Color(Color::Rgb(255, 0, 0));
    let indexed = SyntaxHighlighter::new("x", &[], red, ColorMode::Indexed256);
    assert_eq!(indexed.code_block_bg(), Some(Color::Indexed(196)));
    assert_eq!(
        highlighter(ColorMode::Indexed256).code_block_bg(),
        Some(Color::Indexed(17))
    );
    assert_eq!(CodeBlockBackground::default(), CodeBlockBackground::FromTheme);
}

#[test]
fn background_is_resolved_from_what_the_theme_sets() {
    let from_theme = CodeBlockBackground::FromTheme;
    assert_eq!(resolve_background(None, from_theme, ColorMode::Rgb), None);
    assert_eq!(
        resolve_background(Some((1, 2, 3)), from_theme, ColorMode::Rgb),
        Some(Color::Rgb(1, 2, 3))
    );
    assert_eq!(
        resolve_background(Some((1, 2, 3)), CodeBlockBackground::Off, ColorMode::Rgb),
        None
    );
    let named = CodeBlockBackground::Color(Color::Cyan);
    assert_eq!(
        resolve_background(None, named, ColorMode::Indexed256),
        Some(Color::Cyan)
    );
}

#[test]
fn builtin_themes_are_found_by_name() {
    for name in [
        "base16-ocean.dark",
        "base16-eighties.dark",
        "base16-mocha.dark",
        "base16-ocean.light",
        "InspiredGitHub",
        "Solarized (dark)",
        "Solarized (light)",
    ] {
        let (_, report) = load_code_theme(name, &[]);
        assert!(!report.missing, "{name} is missing");
        assert!(report.skipped.is_empty());
    }
    assert_ne!(
        background_of_theme("InspiredGitHub", &[]),
        background_of_theme(DEFAULT_CODE_THEME, &[])
    );
}

#[test]
fn unknown_theme_falls_back_to_the_default() {
    let (_, report) = load_code_theme("no such theme", &[]);
    assert!(report.missing);
    assert_eq!(
        background_of_theme("no such theme", &[]),
        Some(Color::Rgb(43, 48, 59))
    );
}

#[test]
fn theme_files_add_to_and_replace_themes() {
    let files = [
        theme_file("mine", "#102030"),
        theme_file("mine", "#405060"),
        theme_file(DEFAULT_CODE_THEME, "#010203"),
    ];
    assert_eq!(
        background_of_theme("mine", &files),
        Some(Color::Rgb(64, 80, 96))
    );
    assert_eq!(
        background_of_theme("unknown", &files),
        Some(Color::Rgb(1, 2, 3))
    );
}

#[test]
fn files_without_a_theme_or_a_name_are_left_out() {
    let mut nameless = theme_file("mine", "#102030");
    nameless.name = None;
    let broken = ThemeFile {
        name: Some("mine".to_string()),
        content: b"not a theme".to_vec(),
    };
    let files = [nameless, broken];
    let (_, report) = load_code_theme("mine", &files);
    assert!(report.missing);
    assert_eq!(report.skipped.len(), 1);
    assert_eq!(report.skipped[0].index, 1);
    assert_eq!(report.skipped[0].reason, "Invalid syntax theme settings");
    let empty = ThemeFile {
        name: None,
        content: b"<plist version=\"1.0\"><dict></dict></plist>".to_vec(),
    };
    let (_, other) = load_code_theme("mine", &[empty]);
    assert_eq!(other.skipped[0].reason, "Invalid syntax theme");
}

/// A theme file with a date among its keys.
fn dated_theme_file(date: &str) -> ThemeFile {
    let mut file = theme_file("dated", "#102030");
    let content = String::from_utf8(file.content).unwrap().replacen(
        "<dict>",
        &format!("<dict><key>changed</key>{date}"),
        1,
    );
    file.content = content.into_bytes();
    file
}

#[test]
fn theme_files_may_hold_plain_dates() {
    for date in [
        "<date>2020-02-29T12:00:00Z</date>",
        "<date>9998-12-31T23:59:59-23:59</date>",
        "<date>1602-01-01T00:00:00+23:59</date>",
        "<p:date>1999-12-31T23:59:59Z</p:date>",
    ] {
        let files = [dated_theme_file(date)];
        let (_, report) = load_code_theme("dated", &files);
        assert!(report.skipped.is_empty(), "{date}: {:?}", report.skipped);
        assert_eq!(
            background_of_theme("dated", &files),
            Some(Color::Rgb(16, 32, 48))
        );
    }
}

#[test]
fn theme_files_with_dates_out_of_range_are_skipped() {
    for date in [
        "<date>9999-12-31T23:59:59-01:00</date>",
        "<date>0000-01-01T00:00:00+01:00</date>",
        "<date\n>9999-12-31T23:59:59-01:00</date>",
        "<date>&#57;999-12-31T23:59:59-01:00</date>",
        "<date><!-- -->9999-12-31T23:59:59-01:00</date>",
        "<p:date>99<!-- -->99-12-31T23:59:59-01:00</p:date>",
    ] {
        let (_, report) = load_code_theme("dated", &[dated_theme_file(date)]);
        assert!(report.missing);
        assert_eq!(report.skipped.len(), 1, "{date}");
        assert_eq!(report.skipped[0].reason, DATE_OUT_OF_RANGE);
    }
}

#[test]
fn what_is_no_date_is_left_to_the_loader() {
    for date in ["<date></date>", "<date/>", "<date> 9999</date>", "<date>soon</date>"] {
        let file = dated_theme_file(date);
        assert!(dates_are_plain(&file.content), "{date}");
        let (_, report) = load_code_theme("dated", &[file]);
        assert_eq!(report.skipped[0].reason, "Invalid syntax theme settings");
    }
    assert!(dates_are_plain(b""));
    assert!(dates_are_plain(b"<dates>9999"));
    assert!(dates_are_plain(b"update:date 9999"));
    assert!(dates_are_plain(b"<date>"));
    assert!(!dates_are_plain(b"<date>999"));
}

#[test]
fn binary_dates_are_told_by_their_bits() {
    let binary = |seconds: f64| {
        let mut content = b"bplist00\x33".to_vec();
        content.extend_from_slice(&seconds.to_bits().to_be_bytes());
        content
    };
    for plain in [0.0, 5.0e8, -1.0e9, -12_622_780_800.0, -1.0e12, 1.0e15, f64::NAN] {
        assert!(dates_are_plain(&binary(plain)), "{plain}");
    }
    for early in [-12_622_780_801.0, -63_145_526_401.0, -378_683_424_000.0] {
        assert!(!dates_are_plain(&binary(early)), "{early}");
        let file = ThemeFile {
            name: Some("early".to_string()),
            content: binary(early),
        };
        let (_, report) = load_code_theme("early", &[file]);
        assert_eq!(report.skipped[0].reason, DATE_OUT_OF_RANGE);
    }
    // Without the mark of the binary form, the bytes are no date.
    assert!(dates_are_plain(&binary(-63_145_526_401.0)[1..]));
}

#[test]
fn color_mode_changes_colors_only() {
    let code = "// note\nfn main() { let s = \"x\"; }\n";
    let full = highlighter(ColorMode::Rgb).highlight_code(code, "rs");
    let palette = highlighter(ColorMode::Indexed256).highlight_code(code, "rs");
    assert_eq!(full.len(), palette.len());
    for (a, b) in full.iter().zip(&palette) {
        assert_eq!(a.spans.len(), b.spans.len());
        for (s, t) in a.spans.iter().zip(&b.spans) {
            assert_eq!(s.content, t.content);
            let expected = Style {
                fg: s.style.fg.map(rgb_to_256),
                ..s.style
            };
            assert_eq!(t.style, expected);
        }
    }
}

#[test]
fn loading_reports_and_picks_the_same_theme() {
    let files = [theme_file("mine", "#102030")];
    let (h, report) = SyntaxHighlighter::load(
        "mine",
        &files,
        CodeBlockBackground::FromTheme,
        ColorMode::Rgb,
    );
    assert!(!report.missing);
    assert_eq!(h.code_block_bg(), background_of_theme("mine", &files));
}

#[test]
fn code_is_colored_by_its_language() {
    let mut h = highlighter(ColorMode::Rgb);
    let code = "fn main() {\n\tlet x = 1;\n}\n";
    let lines = h.highlight_code(code, "rs");
    assert_eq!(lines.len(), 3);
    assert_eq!(shown(&lines[0]), "fn main() {");
    assert_eq!(shown(&lines[1]), "    let x = 1;");
    assert_eq!(shown(&lines[2]), "}");
    assert_eq!(lines[0].spans[0].content, "fn");
    assert_eq!(lines[0].spans[0].style.fg, Some(Color::Rgb(180, 142, 173)));
    assert!(lines[0].spans.len() > 1);
    assert!(lines
        .iter()
        .all(|l| l.spans.iter().all(|s| !s.content.contains('\n'))));
}

#[test]
fn colors_are_quantized_for_the_palette() {
    let mut h = highlighter(ColorMode::Indexed256);
    let lines = h.highlight_code("fn main() {}\n", "rs");
    for span in &lines[0].spans {
        assert!(matches!(span.style.fg, Some(Color::Indexed(_))));
    }
    let rgb = Color::Rgb(180, 142, 173);
    assert_eq!(adapt(rgb, ColorMode::Rgb), rgb);
    assert_eq!(lines[0].spans[0].style.fg, Some(adapt(rgb, ColorMode::Indexed256)));
}

#[test]
fn unknown_languages_are_plain_text() {
    let mut h = highlighter(ColorMode::Rgb);
    let lines = h.highlight_code("fn main() {}\r\nx", "no such language");
    assert_eq!(lines.len(), 2);
    assert_eq!(lines[0].spans.len(), 1);
    assert_eq!(shown(&lines[0]), "fn main() {}");
    assert_eq!(shown(&lines[1]), "x");
    let plain = h.highlight_code("fn main() {}\r\nx", "txt");
    assert!(same(&lines, &plain));
    assert!(h.highlight_code("", "rs").is_empty());
}

#[test]
fn drawn_lines_show_the_lines_of_the_code() {
    let mut h = highlighter(ColorMode::Rgb);
    let code = "fn main() {\r\n\tlet s = \"ä\t\";\r\n\r\n}";
    for language in ["rs", "txt", "c", "py", "md"] {
        let lines = h.highlight_code(code, language);
        let shown: Vec<String> = lines.iter().map(shown).collect();
        let expected: Vec<String> = code.lines().map(|l| l.replace('\t', "    ")).collect();
        assert_eq!(shown, expected);
        for line in &lines {
            assert!(line.spans.iter().all(|s| !s.content.contains(['\n', '\r'])));
        }
    }
}

#[test]
fn language_names_ignore_case() {
    let code = "fn main() {}\n";
    let mut h = highlighter(ColorMode::Rgb);
    let lower = h.highlight_code(code, "rust");
    assert!(same(&lower, &h.highlight_code(code, "Rust")));
    assert!(same(&lower, &h.highlight_code(code, "RS")));
    assert!(!same(&lower, &h.highlight_code(code, "txt")));
}

#[test]
fn repeated_requests_return_the_same_lines() {
    let mut h = highlighter(ColorMode::Rgb);
    let first = h.highlight_code("let a = 1;\n", "rs");
    for i in 0..CACHE_LIMIT + 10 {
        let other = format!("let b = {i};\n");
        assert_eq!(shown(&h.highlight_code(&other, "rs")[0]), other.trim_end());
        if i % 64 == 0 {
            assert!(same(&first, &h.highlight_code("let a = 1;\n", "rs")));
        }
    }
    assert!(same(&first, &h.highlight_code("let a = 1;\n", "rs")));
}

#[test]
fn keys_tell_code_and_language_apart() {
    assert_eq!(cache_key("ab", "c"), cache_key("ab", "c"));
    assert_ne!(cache_key("ab", "c"), cache_key("a", "bc"));
    assert_ne!(cache_key("ab", "c"), cache_key("c", "ab"));
}

#[test]
fn full_cache_is_cleared_before_the_next_entry() {
    let line = |text: &str| Line {
        spans: vec![Span::raw(text)],
    };
    let mut cache = LineCache::new();
    assert!(cache.get(0).is_none());
    for key in 0..CACHE_LIMIT as u64 {
        cache.insert(key, vec![line("x")]);
    }
    assert_eq!(shown(&cache.get(0).unwrap()[0]), "x");
    cache.insert(1000, vec![line("y"), line("z")]);
    assert!(cache.get(0).is_none());
    assert_eq!(cache.get(1000).unwrap().len(), 2);
    cache.insert(1000, vec![line("w")]);
    assert_eq!(shown(&cache.get(1000).unwrap()[0]), "w");
}

#[test]
fn tabs_become_four_spaces() {
    assert_eq!(expand_tabs("\ta\t"), "    a    ");
    assert_eq!(expand_tabs("no tabs"), "no tabs");
}

#[test]
fn lines_keep_their_endings() {
    assert_eq!(split_code_lines("a\r\n\nb"), ["a\r\n", "\n", "b"]);
    assert_eq!(split_code_lines("a\n"), ["a\n"]);
    assert!(split_code_lines("").is_empty());
    let text = "x\ny\n\nz";
    assert_eq!(split_code_lines(text).concat(), text);
}

#[test]
fn pieces_are_drawn_without_line_endings() {
    let style = TokenStyle {
        red: 1,
        green: 2,
        blue: 3,
        bold: true,
        italic: false,
        underline: true,
    };
    let pieces = Some(vec![(style, "ab".to_string()), (style, "c\r\n".to_string())]);
    let line = draw_line(&pieces, ColorMode::Rgb);
    assert_eq!(line.spans[0].content, "ab");
    assert_eq!(line.spans[1].content, "c");
    let expected = Style {
        fg: Some(Color::Rgb(1, 2, 3)),
        bg: None,
        bold: true,
        italic: false,
        underlined: true,
    };
    assert_eq!(line.spans[1].style, expected);
    assert!(draw_line(&None, ColorMode::Rgb).spans.is_empty());
}
