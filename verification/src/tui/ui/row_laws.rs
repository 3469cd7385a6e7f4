//! What a drawn table row shows of its cells.
use crate::parser::output::Alignment;
use crate::text::{lemma_first_from, repeated};
use crate::tui::code::spans_text;
use crate::tui::style::{styled_span, SpanModel, Style};
use crate::tui::theme::UiTheme;
use crate::tui::ui::columns::CELL_PADDING;
use crate::tui::ui::inline::{backtick_from, inline_spans, plain_spans, spans_cells};
use crate::tui::ui::table::{
    alignment_at, blank_spans, cell_line, cell_lines, cell_spans, cell_style, cells_spans,
    frame_span, is_selected_cell, restyled, row_height, row_lines, row_prefix, width_at,
    TableRenderContext,
};
use crate::tui::ui::util::{
    aligned, joined, law_wrapping_keeps_the_text, lemma_text_cells_concat, padding, spare,
    text_cells, without_spaces, wrapped,
};
use vstd::prelude::*;

verus! {

/// What a reader sees of a text: its characters without the spaces and, unless
/// marks are shown, without backticks.
pub open spec fn seen(s: Seq<char>, with_marks: bool) -> Seq<char>
    decreases s.len(),
{
    if s.len() == 0 {
        s
    } else if s.last() == ' ' || (s.last() == '`' && !with_marks) {
        seen(s.drop_last(), with_marks)
    } else {
        seen(s.drop_last(), with_marks).push(s.last())
    }
}

proof fn lemma_seen_concat(a: Seq<char>, b: Seq<char>, with_marks: bool)
    ensures
        seen(a + b, with_marks) == seen(a, with_marks) + seen(b, with_marks),
    decreases b.len(),
{
    if b.len() == 0 {
        assert(a + b =~= a);
        assert(seen(a, with_marks) + seen(b, with_marks) =~= seen(a, with_marks));
    } else {
        lemma_seen_concat(a, b.drop_last(), with_marks);
        assert((a + b).drop_last() =~= a + b.drop_last());
        assert(seen(a + b, with_marks) =~= seen(a, with_marks) + seen(b, with_marks));
    }
}

proof fn lemma_spaces_are_not_seen(n: nat, with_marks: bool)
    ensures
        seen(repeated(' ', n), with_marks) == Seq::<char>::empty(),
    decreases n,
{
    let s = repeated(' ', n);
    if n > 0 {
        lemma_spaces_are_not_seen((n - 1) as nat, with_marks);
        assert(s.drop_last() =~= repeated(' ', (n - 1) as nat));
    } else {
        assert(s =~= Seq::empty());
    }
}

proof fn lemma_a_mark_is_not_seen(s: Seq<char>)
    requires
        s.len() == 1,
        s[0] == '`',
    ensures
        seen(s, false) == Seq::<char>::empty(),
{
    assert(s.drop_last() =~= Seq::empty());
    assert(seen(s.drop_last(), false) =~= Seq::empty());
}

/// What is seen does not depend on the spaces.
proof fn lemma_seen_without_spaces(s: Seq<char>, with_marks: bool)
    ensures
        seen(without_spaces(s), with_marks) == seen(s, with_marks),
    decreases s.len(),
{
    if s.len() > 0 {
        lemma_seen_without_spaces(s.drop_last(), with_marks);
        if s.last() != ' ' {
            let bare = without_spaces(s);
            assert(bare.drop_last() =~= without_spaces(s.drop_last()));
        }
    }
}

// ---------- spans ----------

pub proof fn lemma_spans_text_concat(a: Seq<SpanModel>, b: Seq<SpanModel>)
    ensures
        spans_text(a + b) == spans_text(a) + spans_text(b),
    decreases b.len(),
{
    if b.len() == 0 {
        assert(a + b =~= a);
        assert(spans_text(a) + spans_text(b) =~= spans_text(a));
    } else {
        lemma_spans_text_concat(a, b.drop_last());
        assert((a + b).drop_last() =~= a + b.drop_last());
        assert(spans_text(a + b) =~= spans_text(a) + spans_text(b));
    }
}

pub proof fn lemma_one_span_text(span: SpanModel)
    ensures
        spans_text(seq![span]) == span.content,
{
    assert(seq![span].drop_last() =~= Seq::empty());
    assert(spans_text(seq![span].drop_last()) =~= Seq::empty());
    assert(spans_text(seq![span]) =~= span.content);
}

proof fn lemma_blank_text(n: nat, style: Style)
    ensures
        spans_text(blank_spans(n, style)) == repeated(' ', n),
{
    if n > 0 {
        lemma_one_span_text(styled_span(repeated(' ', n), style));
    } else {
        assert(repeated(' ', n) =~= Seq::empty());
    }
}

proof fn lemma_plain_text(s: Seq<char>, theme: UiTheme)
    ensures
        spans_text(plain_spans(s, theme)) == s,
{
    if s.len() > 0 {
        lemma_one_span_text(styled_span(s, theme.text_style()));
    } else {
        assert(s =~= Seq::empty());
    }
}

proof fn lemma_restyled_text(spans: Seq<SpanModel>, style: Style, theme: UiTheme)
    ensures
        spans_text(spans.map_values(|s: SpanModel| restyled(s, style, theme))) == spans_text(
            spans,
        ),
    decreases spans.len(),
{
    let drawn = spans.map_values(|s: SpanModel| restyled(s, style, theme));
    if spans.len() > 0 {
        lemma_restyled_text(spans.drop_last(), style, theme);
        assert(drawn.drop_last() =~= spans.drop_last().map_values(
            |s: SpanModel| restyled(s, style, theme),
        ));
    }
}

/// Formatting a text loses no more than marks of inline code: the spans show all
/// other characters, in order.
pub proof fn law_formatting_keeps_the_text(s: Seq<char>, theme: UiTheme)
    ensures
        seen(spans_text(inline_spans(s, theme)), false) == seen(s, false),
    decreases s.len(),
{
    let open = backtick_from(s, 0);
    let close = backtick_from(s, open + 1);
    if 0 <= open < close < s.len() {
        let is_mark = |c: char| c == '`';
        lemma_first_from(s, 0, is_mark);
        lemma_first_from(s, open + 1, is_mark);
        let plain = plain_spans(s.take(open), theme);
        let code = styled_span(s.subrange(open + 1, close), theme.inline_code_style());
        let rest = s.skip(close + 1);
        law_formatting_keeps_the_text(rest, theme);
        lemma_plain_text(s.take(open), theme);
        lemma_one_span_text(code);
        lemma_spans_text_concat(plain, seq![code]);
        lemma_spans_text_concat(plain + seq![code], inline_spans(rest, theme));
        let drawn = s.take(open) + code.content;
        lemma_seen_concat(drawn, spans_text(inline_spans(rest, theme)), false);
        lemma_seen_concat(s.take(open), code.content, false);
        let first = s.subrange(open, open + 1);
        let last = s.subrange(close, close + 1);
        lemma_a_mark_is_not_seen(first);
        lemma_a_mark_is_not_seen(last);
        lemma_seen_concat(s.take(open), first, false);
        lemma_seen_concat(s.take(open) + first, code.content, false);
        lemma_seen_concat(s.take(open) + first + code.content, last, false);
        lemma_seen_concat(s.take(open) + first + code.content + last, rest, false);
        assert(s.take(open) + first + code.content + last + rest =~= s);
        assert(seen(s, false) =~= seen(s.take(open), false) + seen(code.content, false) + seen(
            rest,
            false,
        ));
    } else {
        lemma_plain_text(s, theme);
    }
}

/// A line of a cell shows its text, whatever the alignment and the style.
proof fn lemma_cell_shows_its_line(
    text: Seq<char>,
    width: usize,
    alignment: Alignment,
    ctx: TableRenderContext,
    i: int,
)
    ensures
        seen(
            spans_text(cell_spans(text, width, alignment, ctx, i)),
            is_selected_cell(ctx, i),
        ) == seen(text, is_selected_cell(ctx, i)),
{
    let with_marks = is_selected_cell(ctx, i);
    let style = cell_style(ctx, i);
    if !with_marks && text.contains('`') {
        let theme = *ctx.theme;
        let formatted = inline_spans(text, theme);
        let (lead, trail) = padding(alignment, spare(width as nat, spans_cells(formatted)));
        let drawn = formatted.map_values(|s: SpanModel| restyled(s, style, theme));
        law_formatting_keeps_the_text(text, theme);
        lemma_restyled_text(formatted, style, theme);
        lemma_blank_text(lead, style);
        lemma_blank_text(trail, style);
        lemma_spans_text_concat(blank_spans(lead, style), drawn);
        lemma_spans_text_concat(blank_spans(lead, style) + drawn, blank_spans(trail, style));
        lemma_spaces_are_not_seen(lead, false);
        lemma_spaces_are_not_seen(trail, false);
        let front = repeated(' ', lead);
        let back = repeated(' ', trail);
        lemma_seen_concat(front, spans_text(drawn), false);
        lemma_seen_concat(front + spans_text(drawn), back, false);
        assert(seen(front + spans_text(drawn) + back, false) =~= seen(text, false));
    } else {
        let (lead, trail) = padding(alignment, spare(width as nat, text_cells(text)));
        lemma_one_span_text(styled_span(aligned(text, width as nat, alignment), style));
        lemma_spaces_are_not_seen(lead, with_marks);
        lemma_spaces_are_not_seen(trail, with_marks);
        let front = repeated(' ', lead);
        let back = repeated(' ', trail);
        lemma_seen_concat(front, text, with_marks);
        lemma_seen_concat(front + text, back, with_marks);
        assert(seen(front + text + back, with_marks) =~= seen(text, with_marks));
    }
}

// ---------- a row ----------

/// Parts of a line, each with `frame` to its right.
pub open spec fn framed(parts: Seq<Seq<SpanModel>>, frame: SpanModel) -> Seq<SpanModel>
    decreases parts.len(),
{
    if parts.len() == 0 {
        Seq::empty()
    } else {
        framed(parts.drop_last(), frame) + parts.last() + seq![frame]
    }
}

/// The text that part `i` of the first `count` lines shows, from top to bottom.
pub open spec fn column_text(lines: Seq<Seq<Seq<SpanModel>>>, i: int, count: int) -> Seq<char>
    decreases count,
{
    if count <= 0 {
        Seq::empty()
    } else {
        column_text(lines, i, count - 1) + spans_text(lines[count - 1][i])
    }
}

spec fn parts_of_line(
    cells: Seq<String>,
    ws: Seq<usize>,
    alignments: Seq<Alignment>,
    ctx: TableRenderContext,
    k: int,
) -> Seq<Seq<SpanModel>> {
    Seq::new(
        cells.len(),
        |i: int|
            cell_spans(
                cell_line(cells, ws, i, k),
                width_at(ws, i),
                alignment_at(alignments, i),
                ctx,
                i,
            ),
    )
}

spec fn parts_of_row(
    cells: Seq<String>,
    ws: Seq<usize>,
    alignments: Seq<Alignment>,
    ctx: TableRenderContext,
) -> Seq<Seq<Seq<SpanModel>>> {
    Seq::new(
        row_height(cells, ws, cells.len() as int),
        |k: int| parts_of_line(cells, ws, alignments, ctx, k),
    )
}

proof fn lemma_cells_are_framed(
    cells: Seq<String>,
    ws: Seq<usize>,
    alignments: Seq<Alignment>,
    ctx: TableRenderContext,
    k: int,
    count: int,
)
    requires
        0 <= count <= cells.len(),
    ensures
        cells_spans(cells, ws, alignments, ctx, k, count) == framed(
            parts_of_line(cells, ws, alignments, ctx, k).take(count),
            frame_span("│"@, *ctx.theme),
        ),
    decreases count,
{
    let parts = parts_of_line(cells, ws, alignments, ctx, k);
    if count > 0 {
        lemma_cells_are_framed(cells, ws, alignments, ctx, k, count - 1);
        assert(parts.take(count).drop_last() =~= parts.take(count - 1));
        assert(parts.take(count).last() == parts[count - 1]);
    }
}

/// A row is as tall as each of its cells needs.
proof fn lemma_row_is_tall_enough(cells: Seq<String>, ws: Seq<usize>, count: int, i: int)
    requires
        0 <= i < count,
    ensures
        row_height(cells, ws, count) >= cell_lines(cells[i]@, width_at(ws, i)).len(),
    decreases count,
{
    if i < count - 1 {
        lemma_row_is_tall_enough(cells, ws, count - 1, i);
    }
}

proof fn lemma_joined_push(lines: Seq<Seq<char>>, line: Seq<char>)
    ensures
        joined(lines.push(line)) == joined(lines) + line,
    decreases lines.len(),
{
    let longer = lines.push(line);
    if lines.len() == 0 {
        assert(longer.drop_first() =~= Seq::empty());
        assert(joined(longer.drop_first()) =~= Seq::empty());
        assert(joined(longer) =~= joined(lines) + line);
    } else {
        lemma_joined_push(lines.drop_first(), line);
        assert(longer.drop_first() =~= lines.drop_first().push(line));
        assert(joined(longer) =~= joined(lines) + line);
    }
}

/// The first `count` lines of column `i` show the first `count` lines of the
/// cell.
proof fn lemma_column_shows_the_lines(
    cells: Seq<String>,
    ws: Seq<usize>,
    alignments: Seq<Alignment>,
    ctx: TableRenderContext,
    i: int,
    count: int,
)
    requires
        0 <= i < cells.len(),
        0 <= count <= row_height(cells, ws, cells.len() as int),
    ensures
        ({
            let lines = cell_lines(cells[i]@, width_at(ws, i));
            let reached = if count < lines.len() {
                count
            } else {
                lines.len() as int
            };
            seen(
                column_text(parts_of_row(cells, ws, alignments, ctx), i, count),
                is_selected_cell(ctx, i),
            ) == seen(joined(lines.take(reached)), is_selected_cell(ctx, i))
        }),
    decreases count,
{
    let lines = cell_lines(cells[i]@, width_at(ws, i));
    let rows = parts_of_row(cells, ws, alignments, ctx);
    let with_marks = is_selected_cell(ctx, i);
    if count > 0 {
        let k = count - 1;
        lemma_column_shows_the_lines(cells, ws, alignments, ctx, i, k);
        let text = cell_line(cells, ws, i, k);
        lemma_cell_shows_its_line(text, width_at(ws, i), alignment_at(alignments, i), ctx, i);
        let part = rows[k][i];
        assert(part == cell_spans(text, width_at(ws, i), alignment_at(alignments, i), ctx, i));
        let before = column_text(rows, i, k);
        lemma_seen_concat(before, spans_text(part), with_marks);
        if k < lines.len() {
            lemma_joined_push(lines.take(k), lines[k]);
            assert(lines.take(k).push(lines[k]) =~= lines.take(count));
            lemma_seen_concat(joined(lines.take(k)), lines[k], with_marks);
        } else {
            assert(seen(text, with_marks) =~= Seq::empty());
            assert(seen(before, with_marks) + seen(text, with_marks) =~= seen(before, with_marks));
        }
    } else {
        assert(lines.take(0) =~= Seq::empty());
    }
}

// ---------- placement and style ----------

/// The spaces that the alignment asks for stand around `body`: as many as are
/// left of `width`, after the body to the left, before it to the right, and on
/// both sides, as evenly as can be, in the center.
pub open spec fn is_placed(
    text: Seq<char>,
    body: Seq<char>,
    width: nat,
    alignment: Alignment,
    lead: nat,
    trail: nat,
) -> bool {
    &&& text == repeated(' ', lead) + body + repeated(' ', trail)
    &&& text_cells(body) < width ==> text_cells(body) + lead + trail == width
    &&& text_cells(body) >= width ==> lead == 0 && trail == 0
    &&& match alignment {
        Alignment::Right => trail == 0,
        Alignment::Center => lead <= trail <= lead + 1,
        _ => lead == 0,
    }
}

/// `text` is `body`, aligned.
pub open spec fn is_aligned(
    text: Seq<char>,
    body: Seq<char>,
    width: nat,
    alignment: Alignment,
) -> bool {
    exists|lead: nat, trail: nat| #[trigger]
        is_placed(text, body, width, alignment, lead, trail)
}

/// Text is aligned by spaces on the side that the alignment leaves free.
pub proof fn law_alignment_places_the_text(s: Seq<char>, width: nat, alignment: Alignment) -> (r: (
    nat,
    nat,
))
    ensures
        is_placed(aligned(s, width, alignment), s, width, alignment, r.0, r.1),
{
    padding(alignment, spare(width, text_cells(s)))
}

proof fn lemma_text_of_spans_cells(spans: Seq<SpanModel>)
    ensures
        spans_cells(spans) == text_cells(spans_text(spans)),
    decreases spans.len(),
{
    if spans.len() > 0 {
        lemma_text_of_spans_cells(spans.drop_last());
        lemma_text_cells_concat(spans_text(spans.drop_last()), spans.last().content);
    }
}

/// How the text of a cell is drawn: the selected cell in the colors of a
/// selection and bold, a header in the third heading color and bold, any other
/// as ordinary text.
pub open spec fn wanted_style(theme: UiTheme, is_selected: bool, is_header: bool) -> Style {
    let fg = if is_selected {
        theme.link_selected_fg
    } else if is_header {
        theme.heading_3
    } else {
        theme.foreground
    };
    let bg = if is_selected {
        Some(theme.link_selected_bg)
    } else {
        None
    };
    Style { fg: Some(fg), bg, bold: is_selected || is_header, italic: false, underlined: false }
}

/// How inline code is drawn.
pub open spec fn code_style(theme: UiTheme) -> Style {
    Style {
        fg: Some(theme.inline_code_fg),
        bg: Some(theme.inline_code_bg),
        bold: false,
        italic: false,
        underlined: false,
    }
}

/// The spans of one line of a cell: the line in its place and in the style of
/// the cell. Outside the selected cell code is drawn as code.
pub open spec fn draws_line(
    part: Seq<SpanModel>,
    line: Seq<char>,
    width: nat,
    alignment: Alignment,
    theme: UiTheme,
    is_selected: bool,
    is_header: bool,
) -> bool {
    let has_code = !is_selected && line.contains('`');
    let formatted = inline_spans(line, theme);
    &&& has_code ==> is_aligned(spans_text(part), spans_text(formatted), width, alignment)
    &&& !has_code ==> is_aligned(spans_text(part), line, width, alignment)
    &&& forall|j: int|
        0 <= j < part.len() ==> (#[trigger] part[j]).style == wanted_style(
            theme,
            is_selected,
            is_header,
        ) || has_code && part[j].style == code_style(theme)
    &&& forall|j: int|
        has_code && 0 <= j < formatted.len() && (#[trigger] formatted[j]).style == code_style(theme)
            ==> part.contains(formatted[j])
}

/// A span of formatted text is either ordinary text or code.
proof fn lemma_inline_styles(s: Seq<char>, theme: UiTheme)
    ensures
        forall|j: int|
            0 <= j < inline_spans(s, theme).len() ==> (#[trigger] inline_spans(s, theme)[j]).style
                == code_style(theme) || inline_spans(s, theme)[j].style == wanted_style(
                theme,
                false,
                false,
            ),
    decreases s.len(),
{
    let open = backtick_from(s, 0);
    let close = backtick_from(s, open + 1);
    if 0 <= open < close < s.len() {
        let rest = s.skip(close + 1);
        lemma_inline_styles(rest, theme);
        let front = plain_spans(s.take(open), theme) + seq![
            styled_span(s.subrange(open + 1, close), theme.inline_code_style()),
        ];
        assert forall|j: int| 0 <= j < inline_spans(s, theme).len() implies (
        #[trigger] inline_spans(s, theme)[j]).style == code_style(theme) || inline_spans(s, theme)[
            j
        ].style == wanted_style(theme, false, false) by {
            if j >= front.len() {
                assert(inline_spans(s, theme)[j] == inline_spans(rest, theme)[j - front.len()]);
            } else {
                assert(inline_spans(s, theme)[j] == front[j]);
            }
        }
    }
}

proof fn lemma_cell_draws_its_line(
    text: Seq<char>,
    width: usize,
    alignment: Alignment,
    ctx: TableRenderContext,
    i: int,
)
    ensures
        draws_line(
            cell_spans(text, width, alignment, ctx, i),
            text,
            width as nat,
            alignment,
            *ctx.theme,
            is_selected_cell(ctx, i),
            ctx.is_header,
        ),
{
    let part = cell_spans(text, width, alignment, ctx, i);
    let style = cell_style(ctx, i);
    let theme = *ctx.theme;
    if !is_selected_cell(ctx, i) && text.contains('`') {
        let formatted = inline_spans(text, theme);
        let (lead, trail) = padding(alignment, spare(width as nat, spans_cells(formatted)));
        let drawn = formatted.map_values(|s: SpanModel| restyled(s, style, theme));
        let front = blank_spans(lead, style);
        lemma_restyled_text(formatted, style, theme);
        lemma_blank_text(lead, style);
        lemma_blank_text(trail, style);
        lemma_spans_text_concat(front, drawn);
        lemma_spans_text_concat(front + drawn, blank_spans(trail, style));
        lemma_text_of_spans_cells(formatted);
        lemma_inline_styles(text, theme);
        assert(is_placed(
            spans_text(part),
            spans_text(formatted),
            width as nat,
            alignment,
            lead,
            trail,
        ));
        assert forall|j: int| 0 <= j < part.len() implies (#[trigger] part[j]).style
            == wanted_style(theme, false, ctx.is_header) || part[j].style == code_style(theme) by {
            if front.len() <= j < front.len() + drawn.len() {
                assert(part[j] == drawn[j - front.len()]);
                assert(formatted[j - front.len()].style == code_style(theme) || formatted[j
                    - front.len()].style == wanted_style(theme, false, false));
            }
        }
        assert forall|j: int|
            0 <= j < formatted.len() && (#[trigger] formatted[j]).style == code_style(
                theme,
            ) implies part.contains(formatted[j]) by {
            assert(drawn[j] == formatted[j]);
            assert(part[front.len() + j] == drawn[j]);
        }
    } else {
        let r = law_alignment_places_the_text(text, width as nat, alignment);
        lemma_one_span_text(styled_span(aligned(text, width as nat, alignment), style));
    }
}

// ---------- laws of rows ----------

/// The rule between two cells.
pub open spec fn bar(theme: UiTheme) -> SpanModel {
    SpanModel {
        content: seq!['│'],
        style: Style {
            fg: Some(theme.table_border),
            bg: None,
            bold: false,
            italic: false,
            underlined: false,
        },
    }
}

/// The selection is in row `ctx.row_num`.
pub open spec fn is_current_row(ctx: TableRenderContext) -> bool {
    match ctx.selected_cell {
        Some(at) => at.0 == ctx.row_num,
        None => false,
    }
}

/// The selection is cell `i` of row `ctx.row_num`.
pub open spec fn is_current_cell(ctx: TableRenderContext, i: int) -> bool {
    match ctx.selected_cell {
        Some(at) => at.0 == ctx.row_num && at.1 == i,
        None => false,
    }
}

proof fn lemma_bar(theme: UiTheme)
    ensures
        frame_span("│"@, theme) == bar(theme),
{
    reveal_strlit("│");
    assert("│"@ =~= seq!['│']);
}

/// A row shows the whole text of each of its cells. Every line of it stands
/// between rules as one part for each cell, and what the parts of a cell show,
/// line by line, is what is to be seen of the cell: every character but spaces
/// and, unless the cell is selected, marks of inline code, in order. A column
/// without room for text is the one exception.
pub proof fn law_row_shows_its_cells(
    cells: Seq<String>,
    ws: Seq<usize>,
    alignments: Seq<Alignment>,
    ctx: TableRenderContext,
) -> (parts: Seq<Seq<Seq<SpanModel>>>)
    ensures
        parts.len() == row_lines(cells, ws, alignments, ctx).len(),
        forall|k: int|
            0 <= k < parts.len() ==> (#[trigger] parts[k]).len() == cells.len() && row_lines(
                cells,
                ws,
                alignments,
                ctx,
            )[k] == row_prefix(ctx, k) + seq![bar(*ctx.theme)] + framed(parts[k], bar(*ctx.theme)),
        forall|i: int|
            #![trigger cells[i]]
            0 <= i < cells.len() && (i < ws.len() ==> ws[i] > 2) ==> seen(
                column_text(parts, i, parts.len() as int),
                is_current_cell(ctx, i),
            ) == seen(cells[i]@, is_current_cell(ctx, i)),
{
    let parts = parts_of_row(cells, ws, alignments, ctx);
    let n = cells.len() as int;
    lemma_bar(*ctx.theme);
    assert forall|k: int| 0 <= k < parts.len() implies (#[trigger] parts[k]).len() == n
        && row_lines(cells, ws, alignments, ctx)[k] == row_prefix(ctx, k) + seq![bar(*ctx.theme)]
        + framed(parts[k], bar(*ctx.theme)) by {
        lemma_cells_are_framed(cells, ws, alignments, ctx, k, n);
        assert(parts[k].take(n) =~= parts[k]);
    }
    assert forall|i: int|
        #![trigger cells[i]]
        0 <= i < n && (i < ws.len() ==> ws[i] > 2) implies seen(
        column_text(parts, i, parts.len() as int),
        is_current_cell(ctx, i),
    ) == seen(cells[i]@, is_current_cell(ctx, i)) by {
        let with_marks = is_selected_cell(ctx, i);
        let room = (width_at(ws, i) - CELL_PADDING) as nat;
        let lines = cell_lines(cells[i]@, width_at(ws, i));
        lemma_row_is_tall_enough(cells, ws, n, i);
        lemma_column_shows_the_lines(cells, ws, alignments, ctx, i, parts.len() as int);
        assert(lines.take(lines.len() as int) =~= lines);
        law_wrapping_keeps_the_text(cells[i]@, room);
        lemma_seen_without_spaces(joined(lines), with_marks);
        lemma_seen_without_spaces(cells[i]@, with_marks);
    }
    parts
}

/// Line by line, a cell is drawn from top to bottom: line `k` of the row draws
/// line `k` of the wrapped cell in its column, aligned and in the style of the
/// cell, and nothing below the last one. The wrapped lines leave two cells of
/// the column free; a column beyond the given ones is ten cells wide, and one
/// without an alignment is aligned to the left.
pub proof fn law_row_draws_line_by_line(
    cells: Seq<String>,
    ws: Seq<usize>,
    alignments: Seq<Alignment>,
    ctx: TableRenderContext,
) -> (parts: Seq<Seq<Seq<SpanModel>>>)
    ensures
        parts.len() == row_lines(cells, ws, alignments, ctx).len(),
        forall|k: int|
            0 <= k < parts.len() ==> (#[trigger] parts[k]).len() == cells.len() && row_lines(
                cells,
                ws,
                alignments,
                ctx,
            )[k] == row_prefix(ctx, k) + seq![bar(*ctx.theme)] + framed(parts[k], bar(*ctx.theme)),
        forall|k: int, i: int|
            #![trigger parts[k][i]]
            0 <= k < parts.len() && 0 <= i < cells.len() ==> {
                let width = if i < ws.len() {
                    ws[i] as int
                } else {
                    10
                };
                let alignment = if i < alignments.len() {
                    alignments[i]
                } else {
                    Alignment::Left
                };
                let lines = wrapped(cells[i]@, (width - 2) as nat);
                let line = if width > 2 && k < lines.len() {
                    lines[k]
                } else {
                    Seq::empty()
                };
                draws_line(
                    parts[k][i],
                    line,
                    width as nat,
                    alignment,
                    *ctx.theme,
                    is_current_cell(ctx, i),
                    ctx.is_header,
                )
            },
{
    let parts = parts_of_row(cells, ws, alignments, ctx);
    let n = cells.len() as int;
    lemma_bar(*ctx.theme);
    assert forall|k: int| 0 <= k < parts.len() implies (#[trigger] parts[k]).len() == n
        && row_lines(cells, ws, alignments, ctx)[k] == row_prefix(ctx, k) + seq![bar(*ctx.theme)]
        + framed(parts[k], bar(*ctx.theme)) by {
        lemma_cells_are_framed(cells, ws, alignments, ctx, k, n);
        assert(parts[k].take(n) =~= parts[k]);
    }
    assert forall|k: int, i: int|
        #![trigger parts[k][i]]
        0 <= k < parts.len() && 0 <= i < cells.len() implies {
        let width = if i < ws.len() {
            ws[i] as int
        } else {
            10
        };
        let alignment = if i < alignments.len() {
            alignments[i]
        } else {
            Alignment::Left
        };
        let lines = wrapped(cells[i]@, (width - 2) as nat);
        let line = if width > 2 && k < lines.len() {
            lines[k]
        } else {
            Seq::empty()
        };
        draws_line(
            parts[k][i],
            line,
            width as nat,
            alignment,
            *ctx.theme,
            is_current_cell(ctx, i),
            ctx.is_header,
        )
    } by {
        lemma_cell_draws_its_line(
            cell_line(cells, ws, i, k),
            width_at(ws, i),
            alignment_at(alignments, i),
            ctx,
            i,
        );
        assert(parts[k][i] == cell_spans(
            cell_line(cells, ws, i, k),
            width_at(ws, i),
            alignment_at(alignments, i),
            ctx,
            i,
        ));
    }
    parts
}

/// In table mode the arrow points at the first line of the row of the selected
/// cell, and every other line starts with two spaces; so do all lines of a row
/// of a selected table. Else nothing stands in front of a row.
pub proof fn law_arrow_points_at_the_selected_row(ctx: TableRenderContext, k: int)
    ensures
        ({
            let front = row_prefix(ctx, k);
            let is_first_line = is_current_row(ctx) && k == 0;
            &&& ctx.in_table_mode && is_first_line ==> spans_text(front) == seq!['→', ' ']
                && front.len() == 1 && front[0].style.fg == Some(ctx.theme.selection_indicator_fg)
                && front[0].style.bold
            &&& ctx.in_table_mode && !is_first_line ==> spans_text(front) == seq![' ', ' ']
            &&& !ctx.in_table_mode && ctx.is_table_selected ==> spans_text(front) == seq![' ', ' ']
            &&& !ctx.in_table_mode && !ctx.is_table_selected ==> front.len() == 0
        }),
{
    let front = row_prefix(ctx, k);
    reveal_strlit("→ ");
    reveal_strlit("  ");
    assert("→ "@ =~= seq!['→', ' ']);
    assert("  "@ =~= seq![' ', ' ']);
    if front.len() > 0 {
        lemma_one_span_text(front[0]);
        assert(front =~= seq![front[0]]);
    }
}

} // verus!
