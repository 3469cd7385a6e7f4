//! Table rendering: alignment, borders, selection highlighting and multi-line
//! cells.
use crate::parser::output::Alignment;
use crate::text::{has_char, push_repeated, repeated};
use crate::tui::style::{
    line_models, no_style, raw_span, span_models, styled_span, Line, Span, SpanModel, Style,
};
use crate::tui::theme::UiTheme;
use crate::tui::ui::columns::{
    calculate_column_widths, column_width, fit_columns_to_budget, fitted, CELL_PADDING,
};
use crate::tui::ui::inline::{format_inline_markdown, inline_spans, spans_cells};
use crate::tui::ui::util::{
    align_text, aligned, capped, padding, spare, split_padding, terminal_width, texts, wrap_text,
    wrapped,
};
use vstd::prelude::*;

verus! {

/// Context for rendering a table row
pub struct TableRenderContext<'a> {
    pub theme: &'a UiTheme,
    pub row_num: usize,
    pub is_header: bool,
    pub in_table_mode: bool,
    pub is_table_selected: bool,
    pub selected_cell: Option<(usize, usize)>,
}

// ---------- a row ----------

/// The width of column `i`; a column beyond the table's gets ten cells.
pub open spec fn width_at(ws: Seq<usize>, i: int) -> usize {
    if i < ws.len() {
        ws[i]
    } else {
        10
    }
}

/// The alignment of column `i`, to the left where the table does not say.
pub open spec fn alignment_at(alignments: Seq<Alignment>, i: int) -> Alignment {
    if i < alignments.len() {
        alignments[i]
    } else {
        Alignment::Left
    }
}

/// The lines of a cell in a column of the given width, which the padding is a
/// part of. Without room for text the cell is blank.
pub open spec fn cell_lines(cell: Seq<char>, width: usize) -> Seq<Seq<char>> {
    if width > CELL_PADDING {
        wrapped(cell, (width - CELL_PADDING) as nat)
    } else {
        seq![Seq::empty()]
    }
}

/// The number of lines that the first `count` cells need, at least one.
pub open spec fn row_height(cells: Seq<String>, ws: Seq<usize>, count: int) -> nat
    decreases count,
{
    if count <= 0 {
        1
    } else {
        let before = row_height(cells, ws, count - 1);
        let lines = cell_lines(cells[count - 1]@, width_at(ws, count - 1)).len();
        if lines > before {
            lines
        } else {
            before
        }
    }
}

/// The text of line `k` of cell `i`; below its last line a cell is blank.
pub open spec fn cell_line(cells: Seq<String>, ws: Seq<usize>, i: int, k: int) -> Seq<char> {
    let lines = cell_lines(cells[i]@, width_at(ws, i));
    if k < lines.len() {
        lines[k]
    } else {
        Seq::empty()
    }
}

/// The style of cell `i`: highlighted if it is the selected cell, else as a
/// header or as ordinary text.
pub open spec fn cell_style(ctx: TableRenderContext, i: int) -> Style {
    if is_selected_cell(ctx, i) {
        Style {
            fg: Some(ctx.theme.link_selected_fg),
            bg: Some(ctx.theme.link_selected_bg),
            bold: true,
            ..no_style()
        }
    } else if ctx.is_header {
        Style { fg: Some(ctx.theme.heading_color(3)), bold: true, ..no_style() }
    } else {
        ctx.theme.text_style()
    }
}

/// Cell `i` of this row is the selected one.
pub open spec fn is_selected_cell(ctx: TableRenderContext, i: int) -> bool {
    ctx.selected_cell matches Some(at) && at.0 == ctx.row_num && at.1 == i
}

/// `n` spaces in the given style, or nothing for none.
pub open spec fn blank_spans(n: nat, style: Style) -> Seq<SpanModel> {
    if n == 0 {
        Seq::empty()
    } else {
        seq![styled_span(repeated(' ', n), style)]
    }
}

/// Ordinary text takes on the style of the cell; code keeps its own.
pub open spec fn restyled(span: SpanModel, style: Style, theme: UiTheme) -> SpanModel {
    if span.style == no_style() || span.style == theme.text_style() {
        styled_span(span.content, style)
    } else {
        span
    }
}

/// A line of a cell with inline code in it.
pub open spec fn code_cell_spans(
    text: Seq<char>,
    width: usize,
    alignment: Alignment,
    style: Style,
    theme: UiTheme,
) -> Seq<SpanModel> {
    let formatted = inline_spans(text, theme);
    let (lead, trail) = padding(alignment, spare(width as nat, spans_cells(formatted)));
    blank_spans(lead, style) + formatted.map_values(|s: SpanModel| restyled(s, style, theme))
        + blank_spans(trail, style)
}

/// A line of cell `i`: aligned text, with inline code drawn as such unless the
/// cell is selected.
pub open spec fn cell_spans(
    text: Seq<char>,
    width: usize,
    alignment: Alignment,
    ctx: TableRenderContext,
    i: int,
) -> Seq<SpanModel> {
    if !is_selected_cell(ctx, i) && text.contains('`') {
        code_cell_spans(text, width, alignment, cell_style(ctx, i), *ctx.theme)
    } else {
        seq![styled_span(aligned(text, width as nat, alignment), cell_style(ctx, i))]
    }
}

/// A piece of the frame of the table.
pub open spec fn frame_span(text: Seq<char>, theme: UiTheme) -> SpanModel {
    styled_span(text, Style { fg: Some(theme.table_border), ..no_style() })
}

/// Line `k` of the first `count` cells, each with the rule to its right.
pub open spec fn cells_spans(
    cells: Seq<String>,
    ws: Seq<usize>,
    alignments: Seq<Alignment>,
    ctx: TableRenderContext,
    k: int,
    count: int,
) -> Seq<SpanModel>
    decreases count,
{
    if count <= 0 {
        Seq::empty()
    } else {
        let i = count - 1;
        cells_spans(cells, ws, alignments, ctx, k, i) + cell_spans(
            cell_line(cells, ws, i, k),
            width_at(ws, i),
            alignment_at(alignments, i),
            ctx,
            i,
        ) + seq![frame_span("│"@, *ctx.theme)]
    }
}

/// What stands in front of line `k` of a row: in table mode the arrow on the
/// first line of the selected row and space on every other, else space if the
/// table is selected.
pub open spec fn row_prefix(ctx: TableRenderContext, k: int) -> Seq<SpanModel> {
    if ctx.in_table_mode {
        if (ctx.selected_cell matches Some(at) && at.0 == ctx.row_num) && k == 0 {
            seq![
                styled_span(
                    "→ "@,
                    Style {
                        fg: Some(ctx.theme.selection_indicator_fg),
                        bold: true,
                        ..no_style()
                    },
                ),
            ]
        } else {
            seq![raw_span("  "@)]
        }
    } else if ctx.is_table_selected {
        seq![raw_span("  "@)]
    } else {
        Seq::empty()
    }
}

/// Line `k` of a row.
pub open spec fn row_line(
    cells: Seq<String>,
    ws: Seq<usize>,
    alignments: Seq<Alignment>,
    ctx: TableRenderContext,
    k: int,
) -> Seq<SpanModel> {
    row_prefix(ctx, k) + seq![frame_span("│"@, *ctx.theme)] + cells_spans(
        cells,
        ws,
        alignments,
        ctx,
        k,
        cells.len() as int,
    )
}

/// The lines of a row, as many as its tallest cell needs.
pub open spec fn row_lines(
    cells: Seq<String>,
    ws: Seq<usize>,
    alignments: Seq<Alignment>,
    ctx: TableRenderContext,
) -> Seq<Seq<SpanModel>> {
    Seq::new(
        row_height(cells, ws, cells.len() as int),
        |k: int| row_line(cells, ws, alignments, ctx, k),
    )
}

/// Appends a span.
fn push_span(spans: &mut Vec<Span>, span: Span)
    ensures
        span_models(final(spans)@) == span_models(old(spans)@).push(span@),
{
    let ghost before = span_models(spans@);
    spans.push(span);
    assert(span_models(spans@) =~= before.push(span@));
}

/// Appends `n` spaces in the given style, or nothing for none.
fn push_blanks(spans: &mut Vec<Span>, n: usize, style: Style)
    ensures
        span_models(final(spans)@) == span_models(old(spans)@) + blank_spans(n as nat, style),
{
    let ghost before = span_models(spans@);
    if n > 0 {
        let mut blanks = String::new();
        push_repeated(&mut blanks, ' ', n);
        assert(blanks@ =~= repeated(' ', n as nat));
        push_span(spans, Span::styled(blanks, style));
    }
    assert(span_models(spans@) =~= before + blank_spans(n as nat, style));
}

/// Appends a piece of the frame.
fn push_frame(spans: &mut Vec<Span>, text: String, theme: &UiTheme)
    ensures
        span_models(final(spans)@) == span_models(old(spans)@).push(frame_span(text@, *theme)),
{
    push_span(spans, Span::styled(text, Style::default().fg(theme.table_border)));
}

/// The number of cells that the spans take together, as far as it can be
/// counted.
fn measure_spans(spans: &Vec<Span>) -> (r: usize)
    ensures
        r == capped(spans_cells(span_models(spans@))),
{
    let mut width: usize = 0;
    let mut i: usize = 0;
    let ghost all = span_models(spans@);
    while i < spans.len()
        invariant
            0 <= i <= spans@.len(),
            all == span_models(spans@),
            width == capped(spans_cells(all.take(i as int))),
        decreases spans@.len() - i,
    {
        assert(all.take(i + 1).drop_last() =~= all.take(i as int));
        width = width.saturating_add(terminal_width(spans[i].content.as_str()));
        i += 1;
    }
    assert(all.take(i as int) =~= all);
    width
}

/// Appends a line of a cell with inline code in it.
fn push_code_cell(
    spans: &mut Vec<Span>,
    text: &str,
    width: usize,
    alignment: &Alignment,
    style: Style,
    theme: &UiTheme,
)
    ensures
        span_models(final(spans)@) == span_models(old(spans)@) + code_cell_spans(
            text@,
            width,
            *alignment,
            style,
            *theme,
        ),
{
    let ghost before = span_models(spans@);
    let formatted = format_inline_markdown(text, theme);
    let used = measure_spans(&formatted);
    let (lead, trail) = split_padding(alignment, width.saturating_sub(used));
    push_blanks(spans, lead, style);
    let ghost led = span_models(spans@);
    let ghost drawn = inline_spans(text@, *theme).map_values(
        |s: SpanModel| restyled(s, style, *theme),
    );
    let mut i: usize = 0;
    while i < formatted.len()
        invariant
            0 <= i <= formatted@.len(),
            span_models(formatted@) == inline_spans(text@, *theme),
            drawn == inline_spans(text@, *theme).map_values(
                |s: SpanModel| restyled(s, style, *theme),
            ),
            span_models(spans@) == led + drawn.take(i as int),
        decreases formatted@.len() - i,
    {
        let span = &formatted[i];
        let plain = span.style == Style::default() || span.style == theme.text_style();
        let effective = if plain {
            style
        } else {
            span.style
        };
        assert(span_models(formatted@)[i as int] == span@);
        push_span(spans, Span::styled(span.content.clone(), effective));
        i += 1;
        assert(span_models(spans@) =~= led + drawn.take(i as int));
    }
    assert(drawn.take(i as int) =~= drawn);
    push_blanks(spans, trail, style);
    assert(span_models(spans@) =~= before + code_cell_spans(
        text@,
        width,
        *alignment,
        style,
        *theme,
    ));
}

/// The style of cell `i`.
fn style_of_cell(ctx: &TableRenderContext, i: usize) -> (r: Style)
    ensures
        r == cell_style(*ctx, i as int),
{
    if cell_is_selected(ctx, i) {
        Style::default().fg(ctx.theme.link_selected_fg).bg(ctx.theme.link_selected_bg).bold()
    } else if ctx.is_header {
        Style::default().fg(ctx.theme.heading_color(3)).bold()
    } else {
        ctx.theme.text_style()
    }
}

/// Whether cell `i` of this row is the selected one.
fn cell_is_selected(ctx: &TableRenderContext, i: usize) -> (r: bool)
    ensures
        r == is_selected_cell(*ctx, i as int),
{
    match ctx.selected_cell {
        Some(at) => at.0 == ctx.row_num && at.1 == i,
        None => false,
    }
}

/// Appends what stands in front of line `k` of a row.
fn push_row_prefix(spans: &mut Vec<Span>, ctx: &TableRenderContext, k: usize)
    ensures
        span_models(final(spans)@) == span_models(old(spans)@) + row_prefix(*ctx, k as int),
{
    let ghost before = span_models(spans@);
    if ctx.in_table_mode {
        let is_selected_row = match ctx.selected_cell {
            Some(at) => at.0 == ctx.row_num,
            None => false,
        };
        if is_selected_row && k == 0 {
            let style = Style::default().fg(ctx.theme.selection_indicator_fg).bold();
            push_span(spans, Span::styled("→ ".to_owned(), style));
        } else {
            push_span(spans, Span::raw("  "));
        }
    } else if ctx.is_table_selected {
        push_span(spans, Span::raw("  "));
    }
    assert(span_models(spans@) =~= before + row_prefix(*ctx, k as int));
}

/// The width of column `i`.
fn get_width(ws: &[usize], i: usize) -> (r: usize)
    ensures
        r == width_at(ws@, i as int),
{
    if i < ws.len() {
        ws[i]
    } else {
        10
    }
}

/// The alignment of column `i`.
fn get_alignment(alignments: &[Alignment], i: usize) -> (r: Alignment)
    ensures
        r == alignment_at(alignments@, i as int),
{
    if i < alignments.len() {
        alignments[i]
    } else {
        Alignment::Left
    }
}

/// The lines of a cell.
fn wrap_cell(cell: &String, width: usize) -> (r: Vec<String>)
    ensures
        texts(r@) == cell_lines(cell@, width),
{
    if width > CELL_PADDING {
        wrap_text(cell.as_str(), width - CELL_PADDING)
    } else {
        let mut r: Vec<String> = Vec::new();
        r.push(String::new());
        assert(texts(r@) =~= seq![Seq::<char>::empty()]);
        r
    }
}

/// The lines of every cell of a row, and the height of the row.
fn wrap_cells(cells: &[String], ws: &[usize]) -> (r: (Vec<Vec<String>>, usize))
    ensures
        r.0@.len() == cells@.len(),
        forall|i: int|
            0 <= i < cells@.len() ==> texts((#[trigger] r.0@[i])@) == cell_lines(
                cells@[i]@,
                width_at(ws@, i),
            ),
        r.1 == row_height(cells@, ws@, cells@.len() as int),
{
    let mut all: Vec<Vec<String>> = Vec::new();
    let mut height: usize = 1;
    let mut i: usize = 0;
    while i < cells.len()
        invariant
            0 <= i <= cells@.len(),
            all@.len() == i,
            forall|j: int|
                0 <= j < i ==> texts((#[trigger] all@[j])@) == cell_lines(
                    cells@[j]@,
                    width_at(ws@, j),
                ),
            height == row_height(cells@, ws@, i as int),
        decreases cells@.len() - i,
    {
        let lines = wrap_cell(&cells[i], get_width(ws, i));
        assert(texts(lines@).len() == lines@.len());
        if lines.len() > height {
            height = lines.len();
        }
        all.push(lines);
        i += 1;
    }
    (all, height)
}

/// Render a single table row with proper alignment and styling
/// Supports multi-line cells via wrapping.
///
/// # Arguments
/// * `cells` - Cell contents for this row
/// * `col_widths` - Pre-calculated column widths
/// * `alignments` - Column alignments
/// * `ctx` - Rendering context with theme and selection state
pub fn render_table_row(
    cells: &[String],
    col_widths: &[usize],
    alignments: &[Alignment],
    ctx: &TableRenderContext,
) -> (r: Vec<Line>)
    ensures
        line_models(r@) == row_lines(cells@, col_widths@, alignments@, *ctx),
{
    let (all, height) = wrap_cells(cells, col_widths);
    let mut lines: Vec<Line> = Vec::new();
    let mut k: usize = 0;
    let ghost drawn = row_lines(cells@, col_widths@, alignments@, *ctx);
    while k < height
        invariant
            0 <= k <= height,
            height == drawn.len(),
            drawn == row_lines(cells@, col_widths@, alignments@, *ctx),
            all@.len() == cells@.len(),
            forall|i: int|
                0 <= i < cells@.len() ==> texts((#[trigger] all@[i])@) == cell_lines(
                    cells@[i]@,
                    width_at(col_widths@, i),
                ),
            line_models(lines@) == drawn.take(k as int),
        decreases height - k,
    {
        let mut spans: Vec<Span> = Vec::new();
        push_row_prefix(&mut spans, ctx, k);
        push_frame(&mut spans, "│".to_owned(), ctx.theme);
        let ghost start = row_prefix(*ctx, k as int) + seq![frame_span("│"@, *ctx.theme)];
        assert(span_models(spans@) =~= start);
        let mut i: usize = 0;
        while i < all.len()
            invariant
                0 <= i <= all@.len(),
                all@.len() == cells@.len(),
                forall|j: int|
                    0 <= j < cells@.len() ==> texts((#[trigger] all@[j])@) == cell_lines(
                        cells@[j]@,
                        width_at(col_widths@, j),
                    ),
                span_models(spans@) == start + cells_spans(
                    cells@,
                    col_widths@,
                    alignments@,
                    *ctx,
                    k as int,
                    i as int,
                ),
            decreases all@.len() - i,
        {
            let ghost before = span_models(spans@);
            let width = get_width(col_widths, i);
            let alignment = get_alignment(alignments, i);
            let text = if k < all[i].len() {
                all[i][k].clone()
            } else {
                String::new()
            };
            proof {
                let wrapped_cell = texts(all@[i as int]@);
                assert(wrapped_cell == cell_lines(cells@[i as int]@, width));
                assert(text@ =~= cell_line(cells@, col_widths@, i as int, k as int));
            }
            let style = style_of_cell(ctx, i);
            if !cell_is_selected(ctx, i) && has_char(text.as_str(), '`') {
                push_code_cell(&mut spans, text.as_str(), width, &alignment, style, ctx.theme);
            } else {
                push_span(
                    &mut spans,
                    Span::styled(align_text(text.as_str(), width, &alignment), style),
                );
            }
            push_frame(&mut spans, "│".to_owned(), ctx.theme);
            assert(span_models(spans@) =~= before + cell_spans(
                text@,
                width,
                alignment,
                *ctx,
                i as int,
            ) + seq![frame_span("│"@, *ctx.theme)]);
            i += 1;
            assert(span_models(spans@) =~= start + cells_spans(
                cells@,
                col_widths@,
                alignments@,
                *ctx,
                k as int,
                i as int,
            ));
        }
        let ghost line = span_models(spans@);
        assert(line == row_line(cells@, col_widths@, alignments@, *ctx, k as int));
        assert(line == drawn[k as int]);
        let ghost above = line_models(lines@);
        lines.push(Line { spans });
        assert(line_models(lines@) =~= above.push(line));
        k += 1;
        assert(line_models(lines@) =~= drawn.take(k as int));
    }
    assert(drawn.take(k as int) =~= drawn);
    lines
}

// ---------- a table ----------

/// Everything about a table that is drawn, besides its cells.
pub struct TableLook {
    pub theme: UiTheme,
    pub is_selected: bool,
    pub in_table_mode: bool,
    pub selected_cell: Option<(usize, usize)>,
}

/// The context of row `row_num`, the header being row zero.
pub open spec fn row_context<'a>(look: &'a TableLook, row_num: usize) -> TableRenderContext<'a> {
    TableRenderContext {
        theme: &look.theme,
        row_num,
        is_header: row_num == 0,
        in_table_mode: look.in_table_mode,
        is_table_selected: look.is_selected,
        selected_cell: look.selected_cell,
    }
}

/// The cells in front of every line: two in table mode or if the table is
/// selected.
pub open spec fn prefix_cells(look: TableLook) -> nat {
    if look.in_table_mode || look.is_selected {
        2
    } else {
        0
    }
}

/// The column widths before fitting, padding included.
pub open spec fn natural_widths(headers: Seq<String>, rows: Seq<Vec<String>>) -> Seq<usize> {
    Seq::new(
        headers.len(),
        |i: int| capped(column_width(headers, rows, i) + CELL_PADDING as nat) as usize,
    )
}

/// What the frame and the prefix leave of `available` for `count` columns.
pub open spec fn column_budget(available: u16, count: nat, prefix: nat) -> nat {
    spare(available as nat, count + 1 + prefix)
}

/// The column widths of the table, fitted where the space is limited.
pub open spec fn table_widths(
    headers: Seq<String>,
    rows: Seq<Vec<String>>,
    look: TableLook,
    available: Option<u16>,
) -> Seq<usize> {
    let natural = natural_widths(headers, rows);
    match available {
        Some(width) => fitted(natural, column_budget(width, headers.len(), prefix_cells(look))),
        None => natural,
    }
}

/// The rule above or below the first `count` columns, with `joint` between two
/// columns.
pub open spec fn rule_of(ws: Seq<usize>, joint: char, count: int) -> Seq<char>
    decreases count,
{
    if count <= 0 {
        Seq::empty()
    } else {
        rule_of(ws, joint, count - 1) + repeated('─', ws[count - 1] as nat) + if count < ws.len() {
            seq![joint]
        } else {
            Seq::empty()
        }
    }
}

/// A horizontal rule over all columns, with its two ends.
pub open spec fn rule(ws: Seq<usize>, left: char, joint: char, right: char) -> Seq<char> {
    seq![left] + rule_of(ws, joint, ws.len() as int) + seq![right]
}

/// What stands in front of the top rule: the arrow if the table is selected as
/// a whole, space in table mode.
pub open spec fn top_prefix(look: TableLook) -> Seq<SpanModel> {
    if look.in_table_mode {
        seq![raw_span("  "@)]
    } else if look.is_selected {
        seq![
            styled_span(
                "→ "@,
                Style {
                    fg: Some(look.theme.selection_indicator_fg),
                    bg: Some(look.theme.selection_indicator_bg),
                    bold: true,
                    ..no_style()
                },
            ),
        ]
    } else {
        Seq::empty()
    }
}

/// What stands in front of the other rules.
pub open spec fn rule_prefix(look: TableLook) -> Seq<SpanModel> {
    if look.in_table_mode || look.is_selected {
        seq![raw_span("  "@)]
    } else {
        Seq::empty()
    }
}

/// The lines of the first `count` data rows.
pub open spec fn data_lines(
    rows: Seq<Vec<String>>,
    ws: Seq<usize>,
    alignments: Seq<Alignment>,
    look: TableLook,
    count: int,
) -> Seq<Seq<SpanModel>>
    decreases count,
{
    if count <= 0 {
        Seq::empty()
    } else {
        data_lines(rows, ws, alignments, look, count - 1) + row_lines(
            rows[count - 1]@,
            ws,
            alignments,
            row_context(&look, count as usize),
        )
    }
}

/// The lines of the table: a rule, the header, a rule, the data rows, a rule.
/// A table without columns has none.
pub open spec fn table_lines(
    headers: Seq<String>,
    alignments: Seq<Alignment>,
    rows: Seq<Vec<String>>,
    look: TableLook,
    available: Option<u16>,
) -> Seq<Seq<SpanModel>> {
    let ws = table_widths(headers, rows, look, available);
    if headers.len() == 0 {
        Seq::empty()
    } else {
        seq![top_prefix(look).push(frame_span(rule(ws, '┌', '┬', '┐'), look.theme))] + row_lines(
            headers,
            ws,
            alignments,
            row_context(&look, 0),
        ) + seq![rule_prefix(look).push(frame_span(rule(ws, '├', '┼', '┤'), look.theme))]
            + data_lines(rows, ws, alignments, look, rows.len() as int) + seq![
            rule_prefix(look).push(frame_span(rule(ws, '└', '┴', '┘'), look.theme)),
        ]
    }
}

/// A horizontal rule over all columns.
fn draw_rule(ws: &Vec<usize>, left: char, joint: char, right: char) -> (r: String)
    ensures
        r@ == rule(ws@, left, joint, right),
{
    let mut r = String::new();
    r.push(left);
    let mut i: usize = 0;
    while i < ws.len()
        invariant
            0 <= i <= ws@.len(),
            r@ == seq![left] + rule_of(ws@, joint, i as int),
        decreases ws@.len() - i,
    {
        push_repeated(&mut r, '─', ws[i]);
        i += 1;
        if i < ws.len() {
            r.push(joint);
        }
        assert(r@ =~= seq![left] + rule_of(ws@, joint, i as int));
    }
    r.push(right);
    assert(r@ =~= rule(ws@, left, joint, right));
    r
}

/// The column widths of the table.
fn measure_table(
    headers: &[String],
    rows: &[Vec<String>],
    look: &TableLook,
    available: Option<u16>,
) -> (r: Vec<usize>)
    ensures
        r@ == table_widths(headers@, rows@, *look, available),
{
    let mut widths = calculate_column_widths(headers, rows);
    let mut i: usize = 0;
    let n: usize = widths.len();
    while i < n
        invariant
            0 <= i <= n,
            n == widths@.len(),
            n == headers@.len(),
            forall|j: int|
                0 <= j < i ==> #[trigger] widths@[j] == capped(
                    column_width(headers@, rows@, j) + CELL_PADDING as nat,
                ),
            forall|j: int|
                i <= j < n ==> #[trigger] widths@[j] == column_width(headers@, rows@, j),
        decreases n - i,
    {
        let width = widths[i];
        widths.set(i, width.saturating_add(CELL_PADDING));
        i += 1;
    }
    assert(widths@ =~= natural_widths(headers@, rows@));
    if let Some(max_width) = available {
        let prefix: usize = if look.in_table_mode || look.is_selected {
            2
        } else {
            0
        };
        let budget = (max_width as usize).saturating_sub(n).saturating_sub(1).saturating_sub(
            prefix,
        );
        fit_columns_to_budget(&mut widths, budget);
    }
    widths
}

/// Appends a line that ends in a horizontal rule.
fn push_rule_line(lines: &mut Vec<Line>, prefix: Vec<Span>, text: String, theme: &UiTheme)
    ensures
        line_models(final(lines)@) == line_models(old(lines)@).push(
            span_models(prefix@).push(frame_span(text@, *theme)),
        ),
{
    let ghost before = line_models(lines@);
    let mut spans = prefix;
    push_frame(&mut spans, text, theme);
    let ghost drawn = span_models(spans@);
    lines.push(Line { spans });
    assert(line_models(lines@) =~= before.push(drawn));
}

/// What stands in front of the rules below the top.
fn draw_rule_prefix(look: &TableLook) -> (r: Vec<Span>)
    ensures
        span_models(r@) == rule_prefix(*look),
{
    let mut spans: Vec<Span> = Vec::new();
    if look.in_table_mode || look.is_selected {
        push_span(&mut spans, Span::raw("  "));
    }
    assert(span_models(spans@) =~= rule_prefix(*look));
    spans
}

/// What stands in front of the top rule.
fn draw_top_prefix(look: &TableLook) -> (r: Vec<Span>)
    ensures
        span_models(r@) == top_prefix(*look),
{
    let mut spans: Vec<Span> = Vec::new();
    if look.in_table_mode {
        push_span(&mut spans, Span::raw("  "));
    } else if look.is_selected {
        let style = Style::default().fg(look.theme.selection_indicator_fg).bg(
            look.theme.selection_indicator_bg,
        ).bold();
        push_span(&mut spans, Span::styled("→ ".to_owned(), style));
    }
    assert(span_models(spans@) =~= top_prefix(*look));
    spans
}

/// Appends the lines of row `row_num`.
fn push_row(
    lines: &mut Vec<Line>,
    cells: &[String],
    ws: &Vec<usize>,
    alignments: &[Alignment],
    look: &TableLook,
    row_num: usize,
)
    ensures
        line_models(final(lines)@) == line_models(old(lines)@) + row_lines(
            cells@,
            ws@,
            alignments@,
            row_context(look, row_num),
        ),
{
    let ctx = TableRenderContext {
        theme: &look.theme,
        row_num,
        is_header: row_num == 0,
        in_table_mode: look.in_table_mode,
        is_table_selected: look.is_selected,
        selected_cell: look.selected_cell,
    };
    let mut row = render_table_row(cells, ws.as_slice(), alignments, &ctx);
    let ghost before = line_models(lines@);
    let ghost drawn = line_models(row@);
    lines.append(&mut row);
    assert(line_models(lines@) =~= before + drawn);
}

/// Render a complete table with headers, alignments, and rows
///
/// # Arguments
/// * `headers` - Column headers
/// * `alignments` - Column alignments
/// * `rows` - Data rows
/// * `theme` - Color theme
/// * `is_selected` - Whether the table element is selected
/// * `in_table_mode` - Whether we're in table cell navigation mode
/// * `selected_cell` - Currently selected cell (row, col) if in table mode
/// * `available_width` - Optional maximum width to constrain table to
#[allow(clippy::too_many_arguments)]
pub fn render_table(
    headers: &[String],
    alignments: &[Alignment],
    rows: &[Vec<String>],
    theme: &UiTheme,
    is_selected: bool,
    in_table_mode: bool,
    selected_cell: Option<(usize, usize)>,
    available_width: Option<u16>,
) -> (r: Vec<Line>)
    ensures
        line_models(r@) == table_lines(
            headers@,
            alignments@,
            rows@,
            (TableLook { theme: *theme, is_selected, in_table_mode, selected_cell }),
            available_width,
        ),
{
    let mut lines: Vec<Line> = Vec::new();
    if headers.len() == 0 {
        assert(line_models(lines@) =~= Seq::empty());
        return lines;
    }
    let look = TableLook { theme: *theme, is_selected, in_table_mode, selected_cell };
    let ws = measure_table(headers, rows, &look, available_width);
    let top = draw_rule(&ws, '┌', '┬', '┐');
    push_rule_line(&mut lines, draw_top_prefix(&look), top, theme);
    push_row(&mut lines, headers, &ws, alignments, &look, 0);
    let separator = draw_rule(&ws, '├', '┼', '┤');
    push_rule_line(&mut lines, draw_rule_prefix(&look), separator, theme);
    let ghost above = line_models(lines@);
    let mut i: usize = 0;
    let n: usize = rows.len();
    while i < n
        invariant
            0 <= i <= n,
            n == rows@.len(),
            line_models(lines@) == above + data_lines(rows@, ws@, alignments@, look, i as int),
        decreases n - i,
    {
        push_row(&mut lines, rows[i].as_slice(), &ws, alignments, &look, i + 1);
        i += 1;
        assert(line_models(lines@) =~= above + data_lines(rows@, ws@, alignments@, look, i as int));
    }
    let bottom = draw_rule(&ws, '└', '┴', '┘');
    push_rule_line(&mut lines, draw_rule_prefix(&look), bottom, theme);
    assert(line_models(lines@) =~= table_lines(
        headers@,
        alignments@,
        rows@,
        look,
        available_width,
    ));
    lines
}

} // verus!
