use treemd::parser::output::Alignment;
use treemd::tui::style::{Color, Line, Style};
use treemd::tui::theme::{rgb_to_256, UiTheme};
use treemd::tui::ui::columns::{calculate_column_widths, fit_columns_to_budget};
use treemd::tui::ui::inline::format_inline_markdown;
use treemd::tui::ui::table::{render_table, render_table_row, TableRenderContext};
use treemd::tui::ui::util::{align_text, split_padding, terminal_width, wrap_text};

fn plain_theme() -> UiTheme {
    UiTheme {
        foreground: Color::White,
        heading_1: Color::Red,
        heading_2: Color::Green,
        heading_3: Color::Yellow,
        heading_4: Color::Blue,
        heading_5: Color::Magenta,
        heading_6: Color::Cyan,
        inline_code_fg: Color::LightRed,
        inline_code_bg: Color::DarkGray,
        table_border: Color::Gray,
        selection_indicator_fg: Color::LightGreen,
        selection_indicator_bg: Color::Black,
        link_selected_fg: Color::Black,
        link_selected_bg: Color::LightYellow,
    }
}

fn strings(texts: &[&str]) -> Vec<String> {
    texts.iter().map(|s| s.to_string()).collect()
}

fn shown(line: &Line) -> String {
    line.spans.iter().map(|s| s.content.as_str()).collect()
}

fn cells(line: &Line) -> usize {
    line.spans.iter().map(|s| terminal_width(&s.content)).sum()
}

fn fitted(widths: &[usize], budget: usize) -> Vec<usize> {
    let mut fitted = widths.to_vec();
    fit_columns_to_budget(&mut fitted, budget);
    fitted
}

#[test]
fn width_counts_terminal_cells() {
    assert_eq!(terminal_width(""), 0);
    assert_eq!(terminal_width("abc"), 3);
    assert_eq!(terminal_width("│→─"), 3);
    assert_eq!(terminal_width("日本"), 4);
    assert_eq!(terminal_width("é"), 1);
}

#[test]
fn text_is_wrapped_at_spaces() {
    assert_eq!(wrap_text("one two three", 7), ["one two", "three"]);
    assert_eq!(wrap_text("one two three", 13), ["one two three"]);
    assert_eq!(wrap_text("abcdef", 4), ["abcd", "ef"]);
    assert_eq!(wrap_text("日本語", 4), ["日本", "語"]);
    assert_eq!(wrap_text("日", 1), ["日"]);
    assert_eq!(wrap_text("", 5), [""]);
}

#[test]
fn wrapped_lines_fit_and_keep_the_text() {
    let text = "Very long text that should wrap, with incomprehensibilities";
    for width in 3..40 {
        let lines = wrap_text(text, width);
        assert!(lines.iter().all(|l| terminal_width(l) <= width));
        let joined: String = lines.concat().chars().filter(|c| *c != ' ').collect();
        let expected: String = text.chars().filter(|c| *c != ' ').collect();
        assert_eq!(joined, expected);
    }
}

#[test]
fn text_is_aligned_in_its_width() {
    assert_eq!(align_text("ab", 5, &Alignment::Left), "ab   ");
    assert_eq!(align_text("ab", 5, &Alignment::Unset), "ab   ");
    assert_eq!(align_text("ab", 5, &Alignment::Right), "   ab");
    assert_eq!(align_text("ab", 5, &Alignment::Center), " ab  ");
    assert_eq!(align_text("日本", 6, &Alignment::Right), "  日本");
    assert_eq!(align_text("abcdef", 3, &Alignment::Center), "abcdef");
    assert_eq!(split_padding(&Alignment::Center, 7), (3, 4));
}

#[test]
fn columns_that_fit_are_left_alone() {
    assert_eq!(fitted(&[5, 9, 9], 23), [5, 9, 9]);
    assert_eq!(fitted(&[], 0), Vec::<usize>::new());
    assert_eq!(fitted(&[1, 2], 3), [1, 2]);
}

#[test]
fn slack_goes_to_the_columns_that_were_clipped() {
    assert_eq!(fitted(&[5, 9, 9], 16), [5, 6, 5]);
    assert_eq!(fitted(&[4, 75], 40), [4, 36]);
    assert_eq!(fitted(&[10, 10, 10], 20), [7, 7, 6]);
}

#[test]
fn columns_never_go_below_the_minimum() {
    assert_eq!(fitted(&[10, 20], 2), [3, 3]);
    assert_eq!(fitted(&[1, 20], 5), [3, 3]);
    assert_eq!(fitted(&[1, 20], 7), [3, 4]);
}

#[test]
fn shrunk_columns_use_the_whole_budget() {
    for budget in 12..60 {
        let widths = fitted(&[4, 17, 8, 40], budget);
        assert_eq!(widths.iter().sum::<usize>(), budget);
    }
    for budget in 9..20 {
        let widths = fitted(&[1, 0, 30], budget);
        assert_eq!(widths.iter().sum::<usize>(), budget);
    }
}

#[test]
fn column_width_blends_average_and_greatest() {
    let headers = strings(&["a", "long header", ""]);
    let rows = vec![
        strings(&["xx", "y", ""]),
        strings(&["xxxxxxxxxx"]),
        strings(&["xxx", "y"]),
    ];
    // Average 5, greatest 10: (35 + 30) / 10.
    assert_eq!(calculate_column_widths(&headers, &rows), [6, 11, 1]);
    assert_eq!(calculate_column_widths(&headers, &[]), [1, 11, 1]);
}

#[test]
fn inline_code_is_drawn_without_its_marks() {
    let theme = plain_theme();
    let spans = format_inline_markdown("use `a b` and `c", &theme);
    let texts: Vec<&str> = spans.iter().map(|s| s.content.as_str()).collect();
    assert_eq!(texts, ["use ", "a b", " and `c"]);
    assert_eq!(spans[0].style, theme.text_style());
    assert_eq!(spans[1].style, theme.inline_code_style());
    assert_eq!(spans[1].style.fg, Some(Color::LightRed));
    assert_eq!(spans[1].style.bg, Some(Color::DarkGray));
    assert!(format_inline_markdown("", &theme).is_empty());
}

#[test]
fn palette_has_a_gray_ramp_and_a_cube() {
    assert_eq!(rgb_to_256(Color::Rgb(255, 0, 0)), Color::Indexed(196));
    assert_eq!(rgb_to_256(Color::Rgb(0, 0, 0)), Color::Indexed(16));
    assert_eq!(rgb_to_256(Color::Rgb(255, 255, 255)), Color::Indexed(231));
    assert_eq!(rgb_to_256(Color::Rgb(128, 128, 128)), Color::Indexed(244));
    assert_eq!(rgb_to_256(Color::Rgb(247, 247, 247)), Color::Indexed(255));
    assert_eq!(rgb_to_256(Color::Cyan), Color::Cyan);
    assert_eq!(rgb_to_256(Color::Indexed(3)), Color::Indexed(3));
}

#[test]
fn heading_colors_follow_the_level() {
    let theme = plain_theme();
    assert_eq!(theme.heading_color(1), Color::Red);
    assert_eq!(theme.heading_color(3), Color::Yellow);
    assert_eq!(theme.heading_color(6), Color::Cyan);
}

#[test]
fn whole_table_is_drawn_as_expected() {
    let headers = strings(&["Name", "Age"]);
    let alignments = [Alignment::Left, Alignment::Right];
    let rows = vec![strings(&["Bob", "7"]), strings(&["Al"])];
    let theme = plain_theme();
    let lines = render_table(&headers, &alignments, &rows, &theme, false, false, None, None);
    let text: Vec<String> = lines.iter().map(shown).collect();
    assert_eq!(
        text,
        [
            "┌──────┬─────┐",
            "│Name  │  Age│",
            "├──────┼─────┤",
            "│Bob   │    7│",
            "│Al    │",
            "└──────┴─────┘",
        ]
    );
}

#[test]
fn complete_tables_are_rectangular() {
    let headers = strings(&["Name", "Notes", "Ω"]);
    let rows = vec![
        strings(&["Bob", "uses `code` a lot", "日本"]),
        strings(&["Alexandra", "", "x"]),
    ];
    let theme = plain_theme();
    for (selected, mode) in [(false, false), (true, false), (false, true), (true, true)] {
        for width in [18u16, 22, 30, 80] {
            let lines = render_table(
                &headers,
                &[Alignment::Center],
                &rows,
                &theme,
                selected,
                mode,
                Some((1, 1)),
                Some(width),
            );
            let first = cells(&lines[0]);
            assert!(lines.iter().all(|l| cells(l) == first));
            assert!(first <= usize::from(width));
        }
    }
}

#[test]
fn wide_enough_space_changes_nothing() {
    let headers = strings(&["Name", "Age"]);
    let rows = vec![strings(&["Bob", "7"])];
    let theme = plain_theme();
    let free = render_table(&headers, &[], &rows, &theme, true, false, None, None);
    let wide = render_table(&headers, &[], &rows, &theme, true, false, None, Some(16));
    let free_text: Vec<String> = free.iter().map(shown).collect();
    let wide_text: Vec<String> = wide.iter().map(shown).collect();
    assert_eq!(free_text, wide_text);
    assert_eq!(free_text[0], "→ ┌──────┬─────┐");
    assert_eq!(free_text[1], "  │Name  │Age  │");
    assert_eq!(free[0].spans[0].style.fg, Some(Color::LightGreen));
    assert_eq!(free[0].spans[0].style.bg, Some(Color::Black));
}

#[test]
fn cells_beyond_the_columns_get_ten_cells() {
    let theme = plain_theme();
    let ctx = TableRenderContext {
        theme: &theme,
        row_num: 2,
        is_header: false,
        in_table_mode: true,
        is_table_selected: false,
        selected_cell: Some((2, 0)),
    };
    let lines = render_table_row(&strings(&["a`b`", "c"]), &[6], &[Alignment::Right], &ctx);
    assert_eq!(lines.len(), 1);
    assert_eq!(shown(&lines[0]), "→ │  a`b`│c         │");
    // A selected cell shows its marks and has the selection's colors.
    let selected = &lines[0].spans[2];
    assert_eq!(selected.style.bg, Some(Color::LightYellow));
    assert!(selected.style.bold);
}

#[test]
fn code_in_a_cell_is_aligned_and_keeps_its_style() {
    let theme = plain_theme();
    let ctx = TableRenderContext {
        theme: &theme,
        row_num: 1,
        is_header: false,
        in_table_mode: false,
        is_table_selected: true,
        selected_cell: None,
    };
    let lines = render_table_row(&strings(&["x `y` z"]), &[11], &[Alignment::Center], &ctx);
    let texts: Vec<&str> = lines[0].spans.iter().map(|s| s.content.as_str()).collect();
    assert_eq!(texts, ["  ", "│", "   ", "x ", "y", " z", "   ", "│"]);
    assert_eq!(lines[0].spans[4].style, theme.inline_code_style());
    assert_eq!(lines[0].spans[0].style, Style::default());
}

#[test]
fn columns_without_room_for_text_are_blank() {
    let theme = plain_theme();
    let ctx = TableRenderContext {
        theme: &theme,
        row_num: 1,
        is_header: false,
        in_table_mode: false,
        is_table_selected: false,
        selected_cell: None,
    };
    let lines = render_table_row(&strings(&["abc", "de"]), &[2, 3], &[], &ctx);
    let text: Vec<String> = lines.iter().map(shown).collect();
    assert_eq!(text, ["│  │d  │", "│  │e  │"]);
}
