//! What holds of every rendered table.
use crate::parser::output::Alignment;
use crate::text::repeated;
use crate::tui::style::{styled_span, SpanModel, Style};
use crate::tui::theme::UiTheme;
use crate::tui::ui::columns::{
    fitted, law_fitted_columns_fit, lemma_fitted_width_bounds, lemma_total_prefix, total,
    CELL_PADDING, MIN_COL_WIDTH,
};
use crate::tui::ui::inline::{
    inline_spans, law_inline_spans_are_no_wider, lemma_one_span_cells, lemma_spans_cells_concat,
    spans_cells,
};
use crate::tui::ui::table::{
    alignment_at, blank_spans, cell_line, cell_lines, cell_spans, cell_style, cells_spans,
    column_budget, data_lines, frame_span, is_selected_cell, natural_widths, prefix_cells, restyled,
    row_context, row_lines, row_prefix, rule, rule_of, rule_prefix, table_lines, table_widths,
    top_prefix, width_at, TableLook, TableRenderContext,
};
use crate::tui::ui::util::{
    aligned, law_aligned_text_fills_the_width, law_wrapped_lines_fit, lemma_single_cells,
    lemma_text_cells_concat, padding, spare, text_cells,
};
use vstd::prelude::*;

verus! {

proof fn lemma_blank_cells(n: nat, style: Style)
    ensures
        spans_cells(blank_spans(n, style)) == n,
{
    if n > 0 {
        lemma_one_span_cells(styled_span(repeated(' ', n), style));
        lemma_single_cells(repeated(' ', n));
    }
}

/// A change of style leaves the width as it is.
proof fn lemma_restyled_cells(spans: Seq<SpanModel>, style: Style, theme: UiTheme)
    ensures
        spans_cells(spans.map_values(|s: SpanModel| restyled(s, style, theme))) == spans_cells(
            spans,
        ),
    decreases spans.len(),
{
    let drawn = spans.map_values(|s: SpanModel| restyled(s, style, theme));
    if spans.len() > 0 {
        lemma_restyled_cells(spans.drop_last(), style, theme);
        assert(drawn.drop_last() =~= spans.drop_last().map_values(
            |s: SpanModel| restyled(s, style, theme),
        ));
    }
}

/// A line of a cell fills its column exactly.
proof fn lemma_cell_fills_its_column(
    text: Seq<char>,
    width: usize,
    alignment: Alignment,
    ctx: TableRenderContext,
    i: int,
)
    requires
        text_cells(text) <= width,
    ensures
        spans_cells(cell_spans(text, width, alignment, ctx, i)) == width,
{
    let style = cell_style(ctx, i);
    if !is_selected_cell(ctx, i) && text.contains('`') {
        let theme = *ctx.theme;
        let formatted = inline_spans(text, theme);
        law_inline_spans_are_no_wider(text, theme);
        let (lead, trail) = padding(alignment, spare(width as nat, spans_cells(formatted)));
        let drawn = formatted.map_values(|s: SpanModel| restyled(s, style, theme));
        lemma_restyled_cells(formatted, style, theme);
        lemma_blank_cells(lead, style);
        lemma_blank_cells(trail, style);
        lemma_spans_cells_concat(blank_spans(lead, style), drawn);
        lemma_spans_cells_concat(blank_spans(lead, style) + drawn, blank_spans(trail, style));
    } else {
        law_aligned_text_fills_the_width(text, width as nat, alignment);
        lemma_one_span_cells(styled_span(aligned(text, width as nat, alignment), style));
    }
}

/// No line of a cell is wider than its column.
proof fn lemma_cell_line_fits(cells: Seq<String>, ws: Seq<usize>, i: int, k: int)
    requires
        width_at(ws, i) >= MIN_COL_WIDTH,
        k >= 0,
    ensures
        text_cells(cell_line(cells, ws, i, k)) <= width_at(ws, i),
{
    let width = width_at(ws, i);
    let lines = cell_lines(cells[i]@, width);
    law_wrapped_lines_fit(cells[i]@, (width - CELL_PADDING) as nat);
    if k < lines.len() {
        let line = lines[k];
        if line.len() == 1 {
            reveal_with_fuel(text_cells, 2);
        }
    }
}

proof fn lemma_frame_cells(theme: UiTheme)
    ensures
        spans_cells(seq![frame_span("│"@, theme)]) == 1,
{
    reveal_strlit("│");
    lemma_single_cells("│"@);
    lemma_one_span_cells(frame_span("│"@, theme));
}

/// The first `count` cells of a row fill their columns, with a rule after each.
proof fn lemma_cells_fill_their_columns(
    cells: Seq<String>,
    ws: Seq<usize>,
    alignments: Seq<Alignment>,
    ctx: TableRenderContext,
    k: int,
    count: int,
)
    requires
        0 <= count <= ws.len(),
        k >= 0,
        forall|i: int| 0 <= i < ws.len() ==> #[trigger] ws[i] >= MIN_COL_WIDTH,
    ensures
        spans_cells(cells_spans(cells, ws, alignments, ctx, k, count)) == total(ws.take(count))
            + count,
    decreases count,
{
    if count > 0 {
        let i = count - 1;
        lemma_cells_fill_their_columns(cells, ws, alignments, ctx, k, i);
        lemma_total_prefix(ws, i);
        let text = cell_line(cells, ws, i, k);
        let drawn = cell_spans(text, ws[i], alignment_at(alignments, i), ctx, i);
        lemma_cell_line_fits(cells, ws, i, k);
        lemma_cell_fills_its_column(text, ws[i], alignment_at(alignments, i), ctx, i);
        let before = cells_spans(cells, ws, alignments, ctx, k, i);
        lemma_frame_cells(*ctx.theme);
        lemma_spans_cells_concat(before, drawn);
        lemma_spans_cells_concat(before + drawn, seq![frame_span("│"@, *ctx.theme)]);
    } else {
        assert(ws.take(0) =~= Seq::empty());
    }
}

proof fn lemma_row_prefix_cells(look: TableLook, row_num: usize, k: int)
    ensures
        spans_cells(row_prefix(row_context(&look, row_num), k)) == prefix_cells(look),
        spans_cells(top_prefix(look)) == prefix_cells(look),
        spans_cells(rule_prefix(look)) == prefix_cells(look),
{
    reveal_strlit("→ ");
    reveal_strlit("  ");
    lemma_single_cells("→ "@);
    lemma_single_cells("  "@);
    let prefix = row_prefix(row_context(&look, row_num), k);
    let top = top_prefix(look);
    let other = rule_prefix(look);
    if prefix.len() > 0 {
        lemma_one_span_cells(prefix[0]);
        assert(prefix =~= seq![prefix[0]]);
    }
    if top.len() > 0 {
        lemma_one_span_cells(top[0]);
        assert(top =~= seq![top[0]]);
    }
    if other.len() > 0 {
        lemma_one_span_cells(other[0]);
        assert(other =~= seq![other[0]]);
    }
}

/// Every line of a row is as wide as the columns that the row has cells for,
/// with the frame and what stands in front of it.
pub proof fn law_row_fills_its_columns(
    cells: Seq<String>,
    ws: Seq<usize>,
    alignments: Seq<Alignment>,
    look: TableLook,
    row_num: usize,
    k: int,
)
    requires
        cells.len() <= ws.len(),
        forall|i: int| 0 <= i < ws.len() ==> #[trigger] ws[i] >= MIN_COL_WIDTH,
        0 <= k < row_lines(cells, ws, alignments, row_context(&look, row_num)).len(),
    ensures
        spans_cells(row_lines(cells, ws, alignments, row_context(&look, row_num))[k])
            == prefix_cells(look) + 1 + total(ws.take(cells.len() as int)) + cells.len(),
{
    let ctx = row_context(&look, row_num);
    let prefix = row_prefix(ctx, k);
    let frame = seq![frame_span("│"@, look.theme)];
    let n = cells.len() as int;
    lemma_row_prefix_cells(look, row_num, k);
    lemma_frame_cells(look.theme);
    lemma_cells_fill_their_columns(cells, ws, alignments, ctx, k, n);
    lemma_spans_cells_concat(prefix, frame);
    lemma_spans_cells_concat(prefix + frame, cells_spans(cells, ws, alignments, ctx, k, n));
}

/// A rule covers the columns and one cell for each joint.
proof fn lemma_rule_of_cells(ws: Seq<usize>, joint: char, count: int)
    requires
        0 <= count <= ws.len(),
        '\u{2500}' <= joint <= '\u{257f}',
    ensures
        text_cells(rule_of(ws, joint, count)) == total(ws.take(count)) + if 0 < count == ws.len() {
            count - 1
        } else {
            count
        },
    decreases count,
{
    if count > 0 {
        lemma_rule_of_cells(ws, joint, count - 1);
        lemma_total_prefix(ws, count - 1);
        let dashes = repeated('─', ws[count - 1] as nat);
        let joints: Seq<char> = if count < ws.len() {
            seq![joint]
        } else {
            Seq::empty()
        };
        lemma_single_cells(dashes);
        lemma_single_cells(joints);
        lemma_text_cells_concat(rule_of(ws, joint, count - 1), dashes);
        lemma_text_cells_concat(rule_of(ws, joint, count - 1) + dashes, joints);
    } else {
        assert(ws.take(0) =~= Seq::empty());
    }
}

/// A line that ends in a rule is as wide as all columns, with the frame and what
/// stands in front of it.
proof fn lemma_rule_line_cells(
    prefix: Seq<SpanModel>,
    ws: Seq<usize>,
    left: char,
    joint: char,
    right: char,
    theme: UiTheme,
)
    requires
        ws.len() > 0,
        '\u{2500}' <= left <= '\u{257f}',
        '\u{2500}' <= joint <= '\u{257f}',
        '\u{2500}' <= right <= '\u{257f}',
    ensures
        spans_cells(prefix.push(frame_span(rule(ws, left, joint, right), theme))) == spans_cells(
            prefix,
        ) + 1 + total(ws) + ws.len(),
{
    let n = ws.len() as int;
    let text = rule(ws, left, joint, right);
    lemma_rule_of_cells(ws, joint, n);
    assert(ws.take(n) =~= ws);
    lemma_single_cells(seq![left]);
    lemma_single_cells(seq![right]);
    lemma_text_cells_concat(seq![left], rule_of(ws, joint, n));
    lemma_text_cells_concat(seq![left] + rule_of(ws, joint, n), seq![right]);
    let line = prefix.push(frame_span(text, theme));
    assert(line.drop_last() =~= prefix);
}

/// No column of a table is narrower than the minimum, whatever the space.
proof fn lemma_table_widths(
    headers: Seq<String>,
    rows: Seq<Vec<String>>,
    look: TableLook,
    available: Option<u16>,
)
    ensures
        table_widths(headers, rows, look, available).len() == headers.len(),
        forall|i: int|
            0 <= i < headers.len() ==> #[trigger] table_widths(headers, rows, look, available)[i]
                >= MIN_COL_WIDTH,
{
    let natural = natural_widths(headers, rows);
    if let Some(width) = available {
        let budget = column_budget(width, headers.len(), prefix_cells(look));
        if total(natural) > budget {
            assert forall|i: int| 0 <= i < headers.len() implies #[trigger] fitted(
                natural,
                budget,
            )[i] >= MIN_COL_WIDTH by {
                lemma_fitted_width_bounds(natural, budget, i);
            }
        }
    }
}

/// Every line of the data rows is a line of one of them.
proof fn lemma_data_line(
    rows: Seq<Vec<String>>,
    ws: Seq<usize>,
    alignments: Seq<Alignment>,
    look: TableLook,
    count: int,
    j: int,
) -> (at: (int, int))
    requires
        0 <= count <= rows.len(),
        0 <= j < data_lines(rows, ws, alignments, look, count).len(),
    ensures
        0 <= at.0 < count,
        0 <= at.1 < row_lines(
            rows[at.0]@,
            ws,
            alignments,
            row_context(&look, (at.0 + 1) as usize),
        ).len(),
        data_lines(rows, ws, alignments, look, count)[j] == row_lines(
            rows[at.0]@,
            ws,
            alignments,
            row_context(&look, (at.0 + 1) as usize),
        )[at.1],
    decreases count,
{
    let before = data_lines(rows, ws, alignments, look, count - 1);
    if count <= 0 {
        (0, 0)
    } else if j < before.len() {
        lemma_data_line(rows, ws, alignments, look, count - 1, j)
    } else {
        (count - 1, j - before.len())
    }
}

/// A line of the table is as wide as all columns together, or as the first
/// `filled` of them for a row that has just `filled` cells.
proof fn lemma_table_line_cells(
    headers: Seq<String>,
    alignments: Seq<Alignment>,
    rows: Seq<Vec<String>>,
    look: TableLook,
    available: Option<u16>,
    j: int,
) -> (filled: int)
    requires
        headers.len() > 0,
        forall|r: int| 0 <= r < rows.len() ==> (#[trigger] rows[r])@.len() <= headers.len(),
        0 <= j < table_lines(headers, alignments, rows, look, available).len(),
    ensures
        0 <= filled <= headers.len(),
        spans_cells(table_lines(headers, alignments, rows, look, available)[j]) == prefix_cells(
            look,
        ) + 1 + total(table_widths(headers, rows, look, available).take(filled)) + filled,
        filled == headers.len() || exists|r: int|
            0 <= r < rows.len() && (#[trigger] rows[r])@.len() == filled,
{
    let ws = table_widths(headers, rows, look, available);
    let n = headers.len() as int;
    lemma_table_widths(headers, rows, look, available);
    assert(ws.take(n) =~= ws);
    lemma_row_prefix_cells(look, 0, 0);
    lemma_rule_line_cells(top_prefix(look), ws, '┌', '┬', '┐', look.theme);
    lemma_rule_line_cells(rule_prefix(look), ws, '├', '┼', '┤', look.theme);
    lemma_rule_line_cells(rule_prefix(look), ws, '└', '┴', '┘', look.theme);
    let top = row_lines(headers, ws, alignments, row_context(&look, 0));
    let data = data_lines(rows, ws, alignments, look, rows.len() as int);
    let k = j - top.len() - 2;
    if 1 <= j < 1 + top.len() {
        law_row_fills_its_columns(headers, ws, alignments, look, 0, j - 1);
        n
    } else if 0 <= k < data.len() {
        let at = lemma_data_line(rows, ws, alignments, look, rows.len() as int, k);
        law_row_fills_its_columns(
            rows[at.0]@,
            ws,
            alignments,
            look,
            (at.0 + 1) as usize,
            at.1,
        );
        rows[at.0]@.len() as int
    } else {
        n
    }
}

/// Every line of a table whose rows are complete is equally wide: the columns,
/// the frame and what stands in front of it.
pub proof fn law_table_is_rectangular(
    headers: Seq<String>,
    alignments: Seq<Alignment>,
    rows: Seq<Vec<String>>,
    look: TableLook,
    available: Option<u16>,
    j: int,
)
    requires
        headers.len() > 0,
        forall|r: int| 0 <= r < rows.len() ==> (#[trigger] rows[r])@.len() == headers.len(),
        0 <= j < table_lines(headers, alignments, rows, look, available).len(),
    ensures
        spans_cells(table_lines(headers, alignments, rows, look, available)[j]) == prefix_cells(
            look,
        ) + 1 + total(table_widths(headers, rows, look, available)) + headers.len(),
{
    let ws = table_widths(headers, rows, look, available);
    let filled = lemma_table_line_cells(headers, alignments, rows, look, available, j);
    lemma_table_widths(headers, rows, look, available);
    assert(ws.take(headers.len() as int) =~= ws);
}

/// Shrinking never exceeds the available width: no line of the table is wider,
/// wherever columns of the minimum width fit and no row has more cells than the
/// table has columns.
pub proof fn law_table_fits_the_available_width(
    headers: Seq<String>,
    alignments: Seq<Alignment>,
    rows: Seq<Vec<String>>,
    look: TableLook,
    width: u16,
    j: int,
)
    requires
        forall|r: int| 0 <= r < rows.len() ==> (#[trigger] rows[r])@.len() <= headers.len(),
        MIN_COL_WIDTH * headers.len() + headers.len() + 1 + prefix_cells(look) <= width,
        0 <= j < table_lines(headers, alignments, rows, look, Some(width)).len(),
    ensures
        spans_cells(table_lines(headers, alignments, rows, look, Some(width))[j]) <= width,
{
    let ws = table_widths(headers, rows, look, Some(width));
    let budget = column_budget(width, headers.len(), prefix_cells(look));
    let filled = lemma_table_line_cells(headers, alignments, rows, look, Some(width), j);
    law_fitted_columns_fit(natural_widths(headers, rows), budget);
    lemma_total_prefix(ws, filled);
}

/// A table that fits is not shrunk: it has the same lines as without a limit.
pub proof fn law_table_that_fits_is_not_shrunk(
    headers: Seq<String>,
    alignments: Seq<Alignment>,
    rows: Seq<Vec<String>>,
    look: TableLook,
    width: u16,
)
    requires
        total(natural_widths(headers, rows)) + headers.len() + 1 + prefix_cells(look) <= width,
    ensures
        table_lines(headers, alignments, rows, look, Some(width)) == table_lines(
            headers,
            alignments,
            rows,
            look,
            None,
        ),
{
}

} // verus!
