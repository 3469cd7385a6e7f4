use treemd::parser::output::Alignment;
use treemd::tui::style::{Color, Line};
use treemd::tui::theme::UiTheme;
use treemd::tui::ui::columns::MIN_COL_WIDTH;
use treemd::tui::ui::table::{render_table, render_table_row, TableRenderContext};
use treemd::tui::ui::util::terminal_width;

fn test_theme() -> UiTheme {
    UiTheme {
        foreground: Color::Rgb(192, 197, 206),
        heading_1: Color::Rgb(143, 161, 179),
        heading_2: Color::Rgb(163, 190, 140),
        heading_3: Color::Rgb(235, 203, 139),
        heading_4: Color::Rgb(180, 142, 173),
        heading_5: Color::Rgb(150, 181, 180),
        heading_6: Color::Rgb(101, 115, 126),
        inline_code_fg: Color::Rgb(191, 97, 106),
        inline_code_bg: Color::Rgb(52, 61, 70),
        table_border: Color::Rgb(79, 91, 102),
        selection_indicator_fg: Color::Rgb(150, 181, 180),
        selection_indicator_bg: Color::Rgb(43, 48, 59),
        link_selected_fg: Color::Rgb(43, 48, 59),
        link_selected_bg: Color::Rgb(235, 203, 139),
    }
}

#[test]
fn test_empty_headers_returns_empty() {
    let theme = test_theme();
    let lines = render_table(&[], &[], &[], &theme, false, false, None, None);
    assert!(lines.is_empty());
}

#[test]
fn test_single_column_table() {
    let theme = test_theme();
    let headers = vec!["Name".to_string()];
    let alignments = vec![Alignment::Left];
    let rows = vec![vec!["Alice".to_string()], vec!["Bob".to_string()]];

    let lines = render_table(
        &headers,
        &alignments,
        &rows,
        &theme,
        false,
        false,
        None,
        None,
    );

    // Should have: top border, header, separator, 2 data rows, bottom border
    // Wrapping might add lines if text is tight, current implementation yields 7
    assert!(lines.len() >= 6);
}

#[test]
fn test_multi_column_table() {
    let theme = test_theme();
    let headers = vec!["Name".to_string(), "Age".to_string(), "City".to_string()];
    let alignments = vec![Alignment::Left, Alignment::Right, Alignment::Center];
    let rows = vec![
        vec!["Alice".to_string(), "30".to_string(), "NYC".to_string()],
        vec!["Bob".to_string(), "25".to_string(), "LA".to_string()],
    ];

    let lines = render_table(
        &headers,
        &alignments,
        &rows,
        &theme,
        false,
        false,
        None,
        None,
    );

    // Should have at least 6 lines
    assert!(lines.len() >= 6);
}

#[test]
fn test_selected_table_adds_arrow() {
    let theme = test_theme();
    let headers = vec!["Col".to_string()];
    let rows = vec![vec!["Data".to_string()]];

    let _lines_unselected =
        render_table(&headers, &[], &rows, &theme, false, false, None, None);
    let lines_selected =
        render_table(&headers, &[], &rows, &theme, true, false, None, None);

    // Selected table should have arrow prefix on first line
    let first_selected = &lines_selected[0];

    // Selected version should have "→ " at the start
    assert!(first_selected.spans.iter().any(|s| s.content.contains("→")));
}

#[test]
fn test_table_mode_shows_row_arrow() {
    let theme = test_theme();
    let headers = vec!["Col".to_string()];
    let rows = vec![vec!["Row1".to_string()], vec!["Row2".to_string()]];

    // Select cell at row 1, col 0
    let lines = render_table(&headers, &[], &rows, &theme, true, true, Some((1, 0)), None);

    // Find the row with the arrow
    assert!(
        lines
            .iter()
            .any(|l| l.spans.iter().any(|s| s.content.contains("→")))
    );
}

#[test]
fn test_header_only_table() {
    let theme = test_theme();
    let headers = vec!["Header1".to_string(), "Header2".to_string()];
    let alignments = vec![Alignment::Left, Alignment::Right];
    let rows: Vec<Vec<String>> = vec![];

    let lines = render_table(
        &headers,
        &alignments,
        &rows,
        &theme,
        false,
        false,
        None,
        None,
    );

    // Should have: top border, header, separator, bottom border = 4 lines
    assert_eq!(lines.len(), 4);
}

#[test]
fn test_halfwidth_katakana_table_widths_match_terminal_cells() {
    let theme = test_theme();
    let headers = vec!["Kana".to_string()];
    let rows = vec![vec!["ｶﾞ".to_string()], vec!["ﾊﾟ".to_string()]];

    let lines = render_table(
        &headers,
        &[Alignment::Left],
        &rows,
        &theme,
        false,
        false,
        None,
        Some(8),
    );

    for line in lines {
        let width: usize = line
            .spans
            .iter()
            .map(|span| terminal_width(&span.content))
            .sum();
        assert!(width <= 8, "line is {width} cells wide: {line:?}");
    }
}

#[test]
fn test_table_width_constraint() {
    let theme = test_theme();
    let headers = vec![
        "Very Long Header Name".to_string(),
        "Another Long Header".to_string(),
    ];
    let alignments = vec![Alignment::Left, Alignment::Left];
    let rows = vec![vec![
        "Some content here".to_string(),
        "More content".to_string(),
    ]];

    // Without width constraint
    let lines_unconstrained = render_table(
        &headers,
        &alignments,
        &rows,
        &theme,
        false,
        false,
        None,
        None,
    );

    // With width constraint - table will wrap
    let lines_constrained = render_table(
        &headers,
        &alignments,
        &rows,
        &theme,
        false,
        false,
        None,
        Some(40),
    );

    // Constrained version should have MORE lines due to wrapping
    assert!(lines_constrained.len() >= lines_unconstrained.len());
}

/// Widths of each column, read back off the rendered top border.
fn rendered_col_widths(lines: &[Line]) -> Vec<usize> {
    let border: String = lines[0]
        .spans
        .iter()
        .map(|s| s.content.as_str())
        .collect::<String>();
    border
        .trim_start_matches(|c| c != '┌')
        .trim_matches(['┌', '┐'])
        .split('┬')
        .map(|seg| seg.chars().count())
        .collect()
}

fn unequal_table() -> (Vec<String>, Vec<Alignment>, Vec<Vec<String>>) {
    let headers = ["ID", "OK", "Name", "Description"]
        .iter()
        .map(|s| s.to_string())
        .collect();
    let rows = (0..3)
        .map(|r| {
            vec![
                format!("{r}"),
                "yes".to_string(),
                format!("item-{r}"),
                "a considerably longer description column that dominates the width"
                    .to_string(),
            ]
        })
        .collect();
    (headers, vec![Alignment::Left; 4], rows)
}

#[test]
fn narrow_columns_are_not_crushed_to_fit_a_dominant_one() {
    // Scaling every column by the same ratio drove `ID` and `OK` to the
    // floor, stacking two-letter headers vertically, while the
    // description column kept the bulk of its surplus.
    let theme = test_theme();
    let (headers, aligns, rows) = unequal_table();

    for width in [60u16, 80, 100] {
        let lines = render_table(
            &headers,
            &aligns,
            &rows,
            &theme,
            false,
            false,
            None,
            Some(width),
        );
        let widths = rendered_col_widths(&lines);
        assert_eq!(widths.len(), 4, "at {width}: {widths:?}");

        // "ID" and "OK" are 2 cells of content. They should never be
        // clipped while a wider column still has surplus to give.
        let description = widths[3];
        for (i, header) in ["ID", "OK"].iter().enumerate() {
            assert!(
                widths[i] >= header.len() || widths[i] >= description,
                "at {width}: {header} got {} cells while description kept {description}: {widths:?}",
                widths[i]
            );
        }
    }
}

#[test]
fn shrinking_never_exceeds_the_available_width() {
    let theme = test_theme();
    let (headers, aligns, rows) = unequal_table();

    // Below `col_count * MIN_COL_WIDTH` plus one border per edge there
    // is no layout that fits, so the floor is where the guarantee
    // starts: 4 columns at 3 cells plus 5 borders.
    let floor = (4 * MIN_COL_WIDTH + 5) as u16;

    for width in floor..=120 {
        let lines = render_table(
            &headers,
            &aligns,
            &rows,
            &theme,
            false,
            false,
            None,
            Some(width),
        );
        for line in &lines {
            let rendered: usize =
                line.spans.iter().map(|s| terminal_width(&s.content)).sum();
            assert!(
                rendered <= usize::from(width),
                "at {width} a line rendered {rendered} cells wide"
            );
        }
    }
}

#[test]
fn test_seven_column_table_at_width_146_no_panic() {
    // Regression test for crash when MIN_COL_WIDTH clamping pushes
    // total column width over budget after proportional shrink
    let theme = test_theme();
    let headers = vec![
        "Protocol".to_string(),
        "Port(s)".to_string(),
        "Transport".to_string(),
        "Purpose".to_string(),
        "Encryption".to_string(),
        "Key Feature".to_string(),
        "Common Usage".to_string(),
    ];
    let alignments = vec![Alignment::Left; 7];
    let rows = vec![
        vec![
            "HTTP".to_string(),
            "80".to_string(),
            "TCP".to_string(),
            "Web".to_string(),
            "No".to_string(),
            "Stateless".to_string(),
            "Websites".to_string(),
        ],
        vec![
            "HTTPS".to_string(),
            "443".to_string(),
            "TCP".to_string(),
            "Secure Web".to_string(),
            "TLS/SSL".to_string(),
            "Encrypted HTTP".to_string(),
            "Secure websites".to_string(),
        ],
        vec![
            "FTP".to_string(),
            "20/21".to_string(),
            "TCP".to_string(),
            "File Transfer".to_string(),
            "Optional".to_string(),
            "Active/Passive".to_string(),
            "File sharing".to_string(),
        ],
    ];

    // Test specific widths around the previously crashing point
    for width in [30, 50, 80, 100, 130, 140, 145, 146, 147, 150, 160, 180, 200] {
        let lines = render_table(
            &headers,
            &alignments,
            &rows,
            &theme,
            false,
            false,
            None,
            Some(width),
        );
        assert!(!lines.is_empty(), "Table should render at width {}", width);
    }
}


#[test]
fn test_basic_row() {
    let theme = test_theme();
    let cells = vec!["A".to_string(), "B".to_string()];
    let col_widths = vec![5, 5];
    let alignments = vec![Alignment::Left, Alignment::Left];

    let ctx = TableRenderContext {
        theme: &theme,
        row_num: 0,
        is_header: false,
        in_table_mode: false,
        is_table_selected: false,
        selected_cell: None,
    };

    let row_lines = render_table_row(&cells, &col_widths, &alignments, &ctx);
    let line = &row_lines[0];

    // Should have spans for: │, cell1, │, cell2, │
    assert!(line.spans.len() >= 5);
}

#[test]
fn test_header_row_styling() {
    let theme = test_theme();
    let cells = vec!["Header".to_string()];
    let col_widths = vec![10];
    let alignments = vec![Alignment::Left];

    let ctx = TableRenderContext {
        theme: &theme,
        row_num: 0,
        is_header: true,
        in_table_mode: false,
        is_table_selected: false,
        selected_cell: None,
    };

    let row_lines = render_table_row(&cells, &col_widths, &alignments, &ctx);
    let line = &row_lines[0];

    // Header should have bold modifier
    let cell_span = line.spans.iter().find(|s| s.content.contains("Header"));
    assert!(cell_span.is_some());
    assert!(
        cell_span
            .unwrap()
            .style
            .bold
    );
}

#[test]
fn test_selected_cell_highlighting() {
    let theme = test_theme();
    let cells = vec!["A".to_string(), "B".to_string()];
    let col_widths = vec![5, 5];
    let alignments = vec![Alignment::Left, Alignment::Left];

    let ctx = TableRenderContext {
        theme: &theme,
        row_num: 1,
        is_header: false,
        in_table_mode: true,
        is_table_selected: true,
        selected_cell: Some((1, 1)), // Select cell B
    };

    let row_lines = render_table_row(&cells, &col_widths, &alignments, &ctx);
    let line = &row_lines[0];

    // The selected cell should have a background color
    let cell_b_span = line.spans.iter().find(|s| s.content.contains("B"));
    assert!(cell_b_span.is_some());
    // Check it has the highlight background
    assert!(cell_b_span.unwrap().style.bg.is_some());
}

#[test]
fn test_row_with_arrow_when_selected() {
    let theme = test_theme();
    let cells = vec!["Data".to_string()];
    let col_widths = vec![8];
    let alignments = vec![Alignment::Left];

    let ctx = TableRenderContext {
        theme: &theme,
        row_num: 1,
        is_header: false,
        in_table_mode: true,
        is_table_selected: true,
        selected_cell: Some((1, 0)),
    };

    let row_lines = render_table_row(&cells, &col_widths, &alignments, &ctx);
    let line = &row_lines[0];

    // Should have arrow at start when row is selected in table mode
    assert!(line.spans[0].content.contains("→"));
}

#[test]
fn test_row_wrapping() {
    let theme = test_theme();
    let cells = vec!["Very long text that should wrap".to_string()];
    let col_widths = vec![10]; // Small width will force wrapping
    let alignments = vec![Alignment::Left];

    let ctx = TableRenderContext {
        theme: &theme,
        row_num: 1,
        is_header: false,
        in_table_mode: false,
        is_table_selected: false,
        selected_cell: None,
    };

    let row_lines = render_table_row(&cells, &col_widths, &alignments, &ctx);

    // Should have multiple lines due to wrapping
    assert!(row_lines.len() > 1);
}

#[test]
fn test_row_without_arrow_when_not_selected() {
    let theme = test_theme();
    let cells = vec!["Data".to_string()];
    let col_widths = vec![8];
    let alignments = vec![Alignment::Left];

    let ctx = TableRenderContext {
        theme: &theme,
        row_num: 2,
        is_header: false,
        in_table_mode: true,
        is_table_selected: true,
        selected_cell: Some((1, 0)), // Different row selected
    };

    let row_lines = render_table_row(&cells, &col_widths, &alignments, &ctx);
    let line = &row_lines[0];

    // Should have spaces, not arrow
    assert_eq!(line.spans[0].content, "  ");
}

#[test]
fn test_header_inline_code_keeps_surrounding_header_style() {
    let theme = test_theme();
    let cells = vec!["Use `foo` now".to_string()];
    let col_widths = vec![20];
    let alignments = vec![Alignment::Left];

    let ctx = TableRenderContext {
        theme: &theme,
        row_num: 0,
        is_header: true,
        in_table_mode: false,
        is_table_selected: false,
        selected_cell: None,
    };

    let row_lines = render_table_row(&cells, &col_widths, &alignments, &ctx);
    let line = &row_lines[0];

    let trailing_text = line
        .spans
        .iter()
        .find(|span| span.content.as_str() == " now")
        .expect("expected plain trailing text after inline code");

    assert!(
        trailing_text.style.bold,
        "plain text after inline code in a header cell should keep header styling"
    );
}
