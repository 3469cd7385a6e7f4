//! The frame of a table and what stands in it.
use crate::parser::output::Alignment;
use crate::text::repeated;
use crate::tui::code::spans_text;
use crate::tui::style::{SpanModel, Style};
use crate::tui::theme::UiTheme;
use crate::tui::ui::columns::{
    column_width, law_columns_without_room_are_minimal, law_shrunk_columns_fill_the_budget,
    lemma_total_prefix, total,
};
use crate::tui::ui::row_laws::lemma_one_span_text;
use crate::tui::ui::table::{
    column_budget, data_lines, frame_span, natural_widths, prefix_cells, row_context, row_lines,
    rule, rule_of, rule_prefix, table_lines, table_widths, top_prefix, TableLook,
    TableRenderContext,
};
use vstd::prelude::*;

verus! {

// ---------- rules ----------

/// Where the rule to the right of column `i` crosses a line, counted from the
/// left end.
pub open spec fn crossing(ws: Seq<usize>, i: int) -> int {
    total(ws.take(i + 1)) + i + 1
}

proof fn lemma_rule_of_shape(ws: Seq<usize>, joint: char, count: int)
    requires
        0 <= count <= ws.len(),
    ensures
        ({
            let text = rule_of(ws, joint, count);
            &&& text.len() == total(ws.take(count)) + if 0 < count == ws.len() {
                count - 1
            } else {
                count
            }
            &&& forall|i: int|
                0 <= i < count && i < ws.len() - 1 ==> 0 <= #[trigger] crossing(ws, i) - 1
                    < text.len() && text[crossing(ws, i) - 1] == joint
            &&& forall|p: int|
                0 <= p < text.len() ==> #[trigger] text[p] == '─' || exists|i: int|
                    0 <= i < count && i < ws.len() - 1 && #[trigger] crossing(ws, i) - 1 == p
        }),
    decreases count,
{
    let text = rule_of(ws, joint, count);
    if count > 0 {
        lemma_rule_of_shape(ws, joint, count - 1);
        lemma_total_prefix(ws, count - 1);
        let before = rule_of(ws, joint, count - 1);
        let dashes = repeated('─', ws[count - 1] as nat);
        assert forall|i: int| 0 <= i < count && i < ws.len() - 1 implies 0 <= #[trigger] crossing(
            ws,
            i,
        ) - 1 < text.len() && text[crossing(ws, i) - 1] == joint by {
            if i < count - 1 {
                assert(text[crossing(ws, i) - 1] == before[crossing(ws, i) - 1]);
            } else {
                assert(crossing(ws, i) - 1 == before.len() + dashes.len());
            }
        }
        assert forall|p: int| 0 <= p < text.len() implies #[trigger] text[p] == '─' || exists|
            i: int,
        |
            0 <= i < count && i < ws.len() - 1 && #[trigger] crossing(ws, i) - 1 == p by {
            if p < before.len() {
                assert(text[p] == before[p]);
                if before[p] != '─' {
                    let i = choose|i: int|
                        0 <= i < count - 1 && i < ws.len() - 1 && #[trigger] crossing(ws, i) - 1
                            == p;
                    assert(crossing(ws, i) - 1 == p);
                }
            } else if p < before.len() + dashes.len() {
                assert(text[p] == dashes[p - before.len()]);
            } else {
                assert(crossing(ws, count - 1) - 1 == p);
            }
        }
    } else {
        assert(ws.take(0) =~= Seq::empty());
    }
}

/// A rule reaches over all columns: it starts with its left end, has a joint
/// where two columns meet, is a dash everywhere else, and ends with its right
/// end.
pub proof fn law_rule_spans_the_columns(ws: Seq<usize>, left: char, joint: char, right: char)
    requires
        ws.len() > 0,
    ensures
        ({
            let text = rule(ws, left, joint, right);
            let end = total(ws) + ws.len();
            &&& text.len() == end + 1
            &&& text[0] == left
            &&& text[end as int] == right
            &&& forall|i: int|
                0 <= i < ws.len() - 1 ==> 0 < #[trigger] crossing(ws, i) < end && text[crossing(
                    ws,
                    i,
                )] == joint
            &&& forall|p: int|
                0 < p < end ==> #[trigger] text[p] == '─' || exists|i: int|
                    0 <= i < ws.len() - 1 && #[trigger] crossing(ws, i) == p
        }),
{
    let n = ws.len() as int;
    let inner = rule_of(ws, joint, n);
    let text = rule(ws, left, joint, right);
    let end = total(ws) + ws.len();
    lemma_rule_of_shape(ws, joint, n);
    assert(ws.take(n) =~= ws);
    assert forall|i: int| 0 <= i < n - 1 implies 0 < #[trigger] crossing(ws, i) < end && text[
        crossing(ws, i)
    ] == joint by {
        assert(0 <= crossing(ws, i) - 1 < inner.len());
        assert(text[crossing(ws, i)] == inner[crossing(ws, i) - 1]);
    }
    assert forall|p: int| 0 < p < end implies #[trigger] text[p] == '─' || exists|i: int|
        0 <= i < n - 1 && #[trigger] crossing(ws, i) == p by {
        assert(text[p] == inner[p - 1]);
        if inner[p - 1] != '─' {
            let i = choose|i: int|
                0 <= i < n && i < ws.len() - 1 && #[trigger] crossing(ws, i) - 1 == p - 1;
            assert(crossing(ws, i) == p);
        }
    }
}

// ---------- the lines of a table ----------

/// What every row of the table is drawn with; row zero is the header.
pub open spec fn context_of_row<'a>(look: &'a TableLook, row_num: usize) -> TableRenderContext<'a> {
    TableRenderContext {
        theme: &look.theme,
        row_num,
        is_header: row_num == 0,
        in_table_mode: look.in_table_mode,
        is_table_selected: look.is_selected,
        selected_cell: look.selected_cell,
    }
}

/// The two cells in front of a rule: the arrow or space, if anything.
pub open spec fn front_text(look: TableLook, is_top: bool) -> Seq<char> {
    if is_top && look.is_selected && !look.in_table_mode {
        seq!['→', ' ']
    } else if look.is_selected || look.in_table_mode {
        seq![' ', ' ']
    } else {
        Seq::empty()
    }
}

/// The line is a rule in the color of the frame, with `front` before it.
pub open spec fn is_rule_line(
    line: Seq<SpanModel>,
    front: Seq<char>,
    text: Seq<char>,
    theme: UiTheme,
) -> bool {
    &&& line.len() > 0
    &&& spans_text(line) == front + text
    &&& line.last().content == text
    &&& line.last().style == (Style {
        fg: Some(theme.table_border),
        bg: None,
        bold: false,
        italic: false,
        underlined: false,
    })
}

proof fn lemma_rule_line(prefix: Seq<SpanModel>, text: Seq<char>, theme: UiTheme)
    ensures
        is_rule_line(prefix.push(frame_span(text, theme)), spans_text(prefix), text, theme),
{
    let line = prefix.push(frame_span(text, theme));
    assert(line.drop_last() =~= prefix);
}

proof fn lemma_front_texts(look: TableLook)
    ensures
        spans_text(top_prefix(look)) == front_text(look, true),
        spans_text(rule_prefix(look)) == front_text(look, false),
{
    reveal_strlit("→ ");
    reveal_strlit("  ");
    assert("→ "@ =~= seq!['→', ' ']);
    assert("  "@ =~= seq![' ', ' ']);
    let top = top_prefix(look);
    let other = rule_prefix(look);
    if top.len() > 0 {
        lemma_one_span_text(top[0]);
        assert(top =~= seq![top[0]]);
    }
    if other.len() > 0 {
        lemma_one_span_text(other[0]);
        assert(other =~= seq![other[0]]);
    }
}

/// The lines from `start` up to `end` are those of row `r` of the table.
pub open spec fn shows_row(
    lines: Seq<Seq<SpanModel>>,
    start: int,
    end: int,
    rows: Seq<Vec<String>>,
    ws: Seq<usize>,
    alignments: Seq<Alignment>,
    look: TableLook,
    r: int,
) -> bool {
    &&& 0 <= start <= end <= lines.len()
    &&& lines.subrange(start, end) == row_lines(
        rows[r]@,
        ws,
        alignments,
        context_of_row(&look, (r + 1) as usize),
    )
}

proof fn lemma_data_rows(
    rows: Seq<Vec<String>>,
    ws: Seq<usize>,
    alignments: Seq<Alignment>,
    look: TableLook,
    count: int,
) -> (starts: Seq<int>)
    requires
        0 <= count <= rows.len(),
    ensures
        starts.len() == count + 1,
        starts[0] == 0,
        starts[count] == data_lines(rows, ws, alignments, look, count).len(),
        forall|r: int|
            0 <= r < count ==> #[trigger] shows_row(
                data_lines(rows, ws, alignments, look, count),
                starts[r],
                starts[r + 1],
                rows,
                ws,
                alignments,
                look,
                r,
            ),
    decreases count,
{
    let all = data_lines(rows, ws, alignments, look, count);
    if count == 0 {
        seq![0int]
    } else {
        let n = count - 1;
        let before = lemma_data_rows(rows, ws, alignments, look, n);
        let above = data_lines(rows, ws, alignments, look, n);
        let starts = before.push(all.len() as int);
        let last = row_lines(rows[n]@, ws, alignments, row_context(&look, count as usize));
        assert(all == above + last);
        assert forall|r: int| 0 <= r < count implies #[trigger] shows_row(
            all,
            starts[r],
            starts[r + 1],
            rows,
            ws,
            alignments,
            look,
            r,
        ) by {
            if r < n {
                assert(shows_row(
                    above,
                    before[r],
                    before[r + 1],
                    rows,
                    ws,
                    alignments,
                    look,
                    r,
                ));
                lemma_row_stays(
                    above,
                    Seq::empty(),
                    last,
                    before[r],
                    before[r + 1],
                    rows,
                    ws,
                    alignments,
                    look,
                    r,
                );
                assert(Seq::<Seq<SpanModel>>::empty() + above + last =~= all);
            } else {
                assert(all.subrange(above.len() as int, all.len() as int) =~= last);
            }
        }
        starts
    }
}

/// A row stays a row with other lines around it.
proof fn lemma_row_stays(
    lines: Seq<Seq<SpanModel>>,
    front: Seq<Seq<SpanModel>>,
    back: Seq<Seq<SpanModel>>,
    start: int,
    end: int,
    rows: Seq<Vec<String>>,
    ws: Seq<usize>,
    alignments: Seq<Alignment>,
    look: TableLook,
    r: int,
)
    requires
        shows_row(lines, start, end, rows, ws, alignments, look, r),
    ensures
        shows_row(
            front + lines + back,
            front.len() + start,
            front.len() + end,
            rows,
            ws,
            alignments,
            look,
            r,
        ),
{
    let all = front + lines + back;
    assert(all.subrange(front.len() + start, front.len() + end) =~= lines.subrange(start, end));
}

/// A table without columns has no lines.
pub proof fn law_table_without_columns_is_empty(
    headers: Seq<String>,
    alignments: Seq<Alignment>,
    rows: Seq<Vec<String>>,
    look: TableLook,
    available: Option<u16>,
)
    requires
        headers.len() == 0,
    ensures
        table_lines(headers, alignments, rows, look, available).len() == 0,
{
}

/// A table starts with the top rule, then come the lines of the header, the
/// middle rule, the lines of every row in turn and the bottom rule, and nothing
/// else. Row `r` starts at `starts[r]`, and the bottom rule stands at the last
/// entry.
pub proof fn law_table_lists_its_rows(
    headers: Seq<String>,
    alignments: Seq<Alignment>,
    rows: Seq<Vec<String>>,
    look: TableLook,
    available: Option<u16>,
) -> (starts: Seq<int>)
    requires
        headers.len() > 0,
    ensures
        ({
            let lines = table_lines(headers, alignments, rows, look, available);
            let ws = table_widths(headers, rows, look, available);
            let header = row_lines(headers, ws, alignments, context_of_row(&look, 0));
            let middle = header.len() as int + 1;
            let end = lines.len() - 1;
            &&& starts.len() == rows.len() + 1
            &&& starts[0] == middle + 1
            &&& starts[rows.len() as int] == end
            &&& is_rule_line(
                lines[0],
                front_text(look, true),
                rule(ws, '┌', '┬', '┐'),
                look.theme,
            )
            &&& lines.subrange(1, middle) == header
            &&& is_rule_line(
                lines[middle],
                front_text(look, false),
                rule(ws, '├', '┼', '┤'),
                look.theme,
            )
            &&& forall|r: int|
                0 <= r < rows.len() ==> #[trigger] shows_row(
                    lines,
                    starts[r],
                    starts[r + 1],
                    rows,
                    ws,
                    alignments,
                    look,
                    r,
                )
            &&& is_rule_line(
                lines[end],
                front_text(look, false),
                rule(ws, '└', '┴', '┘'),
                look.theme,
            )
        }),
{
    let lines = table_lines(headers, alignments, rows, look, available);
    let ws = table_widths(headers, rows, look, available);
    let n = rows.len() as int;
    let header = row_lines(headers, ws, alignments, row_context(&look, 0));
    let data = data_lines(rows, ws, alignments, look, n);
    let top = top_prefix(look).push(frame_span(rule(ws, '┌', '┬', '┐'), look.theme));
    let middle = rule_prefix(look).push(frame_span(rule(ws, '├', '┼', '┤'), look.theme));
    let bottom = rule_prefix(look).push(frame_span(rule(ws, '└', '┴', '┘'), look.theme));
    let front = seq![top] + header + seq![middle];
    let inner = lemma_data_rows(rows, ws, alignments, look, n);
    let starts = Seq::new((n + 1) as nat, |r: int| front.len() + inner[r]);
    lemma_front_texts(look);
    lemma_rule_line(top_prefix(look), rule(ws, '┌', '┬', '┐'), look.theme);
    lemma_rule_line(rule_prefix(look), rule(ws, '├', '┼', '┤'), look.theme);
    lemma_rule_line(rule_prefix(look), rule(ws, '└', '┴', '┘'), look.theme);
    assert(lines =~= front + data + seq![bottom]);
    assert(lines[0] == top);
    assert(lines[header.len() as int + 1] == middle);
    assert(lines[lines.len() - 1] == bottom);
    assert(lines.subrange(1, header.len() as int + 1) =~= header);
    assert forall|r: int| 0 <= r < n implies #[trigger] shows_row(
        lines,
        starts[r],
        starts[r + 1],
        rows,
        ws,
        alignments,
        look,
        r,
    ) by {
        assert(shows_row(data, inner[r], inner[r + 1], rows, ws, alignments, look, r));
        lemma_row_stays(
            data,
            front,
            seq![bottom],
            inner[r],
            inner[r + 1],
            rows,
            ws,
            alignments,
            look,
            r,
        );
    }
    starts
}

// ---------- widths ----------

/// A table that is not limited has columns of their natural widths and two cells
/// more, as far as that can be counted.
pub proof fn law_natural_table_pads_its_columns(
    headers: Seq<String>,
    rows: Seq<Vec<String>>,
    look: TableLook,
    i: int,
)
    requires
        0 <= i < headers.len(),
    ensures
        table_widths(headers, rows, look, None).len() == headers.len(),
        column_width(headers, rows, i) + 2 <= usize::MAX ==> table_widths(
            headers,
            rows,
            look,
            None,
        )[i] == column_width(headers, rows, i) + 2,
{
}

/// A table that has to shrink, and can, is as wide as the space available: its
/// columns, a rule around each and what stands in front leave nothing over. One
/// that cannot shrink that far has columns of three cells.
pub proof fn law_shrunk_table_uses_the_width(
    headers: Seq<String>,
    rows: Seq<Vec<String>>,
    look: TableLook,
    width: u16,
)
    requires
        total(table_widths(headers, rows, look, None)) + headers.len() + 1 + front_text(
            look,
            false,
        ).len() > width,
    ensures
        ({
            let ws = table_widths(headers, rows, look, Some(width));
            let frame = headers.len() + 1 + front_text(look, false).len();
            &&& 3 * headers.len() + frame <= width ==> total(ws) + frame == width
            &&& 3 * headers.len() + frame > width ==> forall|i: int|
                0 <= i < headers.len() ==> #[trigger] ws[i] == 3
        }),
{
    let natural = natural_widths(headers, rows);
    let budget = column_budget(width, headers.len(), prefix_cells(look));
    let ws = table_widths(headers, rows, look, Some(width));
    let frame = headers.len() + 1 + front_text(look, false).len();
    if 3 * headers.len() + frame <= width {
        law_shrunk_columns_fill_the_budget(natural, budget);
    } else {
        assert forall|i: int| 0 <= i < headers.len() implies #[trigger] ws[i] == 3 by {
            law_columns_without_room_are_minimal(natural, budget, i);
        }
    }
}

} // verus!
