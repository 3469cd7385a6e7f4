//! The text of code blocks: tabs, lines and drawn pieces.
use crate::parser::lines::{
    first_line_end, law_lines_with_endings, lemma_lines_concat, lemma_one_line, line_body,
    lines_with_endings,
};
use crate::text::{
    chars_of, lemma_first_from, lemma_first_from_unique, push_repeated, repeated, text_between,
};
use crate::tui::engine::{piece_models, piece_text, TokenStyle};
use crate::tui::style::{span_models, styled_span, Color, Line, Span, SpanModel, Style};
use crate::tui::terminal_compat::ColorMode;
use crate::tui::theme::{quantized, rgb_to_256};
use crate::tui::ui::util::texts;
use vstd::prelude::*;

verus! {

/// The number of spaces that a tab becomes.
pub const TAB_WIDTH: usize = 4;

// ---------- colors ----------

/// A 24-bit color as the terminal can show it.
pub open spec fn adapted(color: Color, mode: ColorMode) -> Color {
    match mode {
        ColorMode::Rgb => color,
        ColorMode::Indexed256 => quantized(color),
    }
}

/// Map a syntect color to something the terminal can actually show.
///
/// Syntect themes are always 24-bit, so on a 256-color terminal every token
/// color and the block background have to be quantized the same way as the rest
/// of the interface.
pub fn adapt(color: Color, mode: ColorMode) -> (r: Color)
    ensures
        r == adapted(color, mode),
{
    match mode {
        ColorMode::Rgb => color,
        ColorMode::Indexed256 => rgb_to_256(color),
    }
}

// ---------- tabs ----------

/// `code` with four spaces in place of every tab.
pub open spec fn expanded(code: Seq<char>) -> Seq<char>
    decreases code.len(),
{
    if code.len() == 0 {
        Seq::empty()
    } else if code.last() == '\t' {
        expanded(code.drop_last()) + repeated(' ', TAB_WIDTH as nat)
    } else {
        expanded(code.drop_last()).push(code.last())
    }
}

/// `code` with four spaces in place of every tab.
pub fn expand_tabs(code: &str) -> (r: String)
    ensures
        r@ == expanded(code@),
{
    let chars = chars_of(code);
    let mut r = String::new();
    let mut i: usize = 0;
    while i < chars.len()
        invariant
            0 <= i <= chars@.len(),
            r@ == expanded(chars@.take(i as int)),
        decreases chars@.len() - i,
    {
        assert(chars@.take(i + 1).drop_last() =~= chars@.take(i as int));
        if chars[i] == '\t' {
            push_repeated(&mut r, ' ', TAB_WIDTH);
        } else {
            r.push(chars[i]);
        }
        i += 1;
    }
    assert(chars@.take(i as int) =~= code@);
    r
}

/// No tab is left.
pub proof fn law_expanded_code_has_no_tabs(code: Seq<char>)
    ensures
        !expanded(code).contains('\t'),
    decreases code.len(),
{
    if code.len() > 0 {
        law_expanded_code_has_no_tabs(code.drop_last());
        let before = expanded(code.drop_last());
        assert forall|i: int| 0 <= i < expanded(code).len() implies expanded(code)[i] != '\t' by {
            if i < before.len() {
                assert(expanded(code)[i] == before[i]);
                assert(before.contains(before[i]));
            }
        }
    }
}

/// Code without tabs stays as it is.
pub proof fn law_code_without_tabs_is_kept(code: Seq<char>)
    requires
        !code.contains('\t'),
    ensures
        expanded(code) == code,
    decreases code.len(),
{
    if code.len() > 0 {
        assert(code.contains(code.last()));
        assert forall|i: int| 0 <= i < code.drop_last().len() implies code.drop_last()[i]
            != '\t' by {
            assert(code.contains(code[i]));
        }
        law_code_without_tabs_is_kept(code.drop_last());
        assert(code =~= code.drop_last().push(code.last()));
    }
}

/// Every tab becomes four spaces, wherever it stands, and the code around it is
/// expanded as it would be alone.
pub proof fn law_tab_becomes_four_spaces(before: Seq<char>, after: Seq<char>)
    ensures
        expanded(before + seq!['\t'] + after) == expanded(before) + seq![' ', ' ', ' ', ' ']
            + expanded(after),
{
    let tab = seq!['\t'];
    lemma_expanded_concat(before + tab, after);
    lemma_expanded_concat(before, tab);
    assert(tab.drop_last() =~= Seq::empty());
    assert(expanded(tab.drop_last()) =~= Seq::empty());
    assert(expanded(tab) =~= seq![' ', ' ', ' ', ' ']);
}

// ---------- lines ----------

/// The end of the line that starts at `from`.
fn find_line_end(chars: &Vec<char>, from: usize) -> (r: usize)
    requires
        from < chars@.len(),
    ensures
        from < r <= chars@.len(),
        r == from + first_line_end(chars@.skip(from as int)),
{
    let n: usize = chars.len();
    let mut i: usize = from;
    while i < n && chars[i] != '\n'
        invariant
            from <= i <= n == chars@.len(),
            forall|j: int| from <= j < i ==> chars@[j] != '\n',
        decreases n - i,
    {
        i += 1;
    }
    proof {
        let rest = chars@.skip(from as int);
        lemma_first_from_unique(rest, 0, |c: char| c == '\n', i - from);
    }
    if i < n {
        i + 1
    } else {
        n
    }
}

/// Split `s` into lines that keep their line ending.
pub fn split_code_lines(s: &str) -> (r: Vec<String>)
    ensures
        texts(r@) == lines_with_endings(s@),
{
    let chars = chars_of(s);
    let n: usize = chars.len();
    let mut r: Vec<String> = Vec::new();
    let mut from: usize = 0;
    assert(chars@.skip(0) =~= chars@);
    assert(texts(r@) + lines_with_endings(s@) =~= lines_with_endings(s@));
    while from < n
        invariant
            0 <= from <= n == chars@.len(),
            lines_with_endings(s@) == texts(r@) + lines_with_endings(chars@.skip(from as int)),
        decreases n - from,
    {
        let ghost rest = chars@.skip(from as int);
        let ghost before = texts(r@);
        let end = find_line_end(&chars, from);
        r.push(text_between(&chars, from, end));
        proof {
            assert(chars@.subrange(from as int, end as int) =~= rest.take(end - from));
            assert(rest.skip(end - from) =~= chars@.skip(end as int));
            assert(texts(r@) =~= before.push(rest.take(end - from)));
            assert(lines_with_endings(s@) =~= texts(r@) + lines_with_endings(chars@.skip(end as int)));
        }
        from = end;
    }
    assert(chars@.skip(from as int) =~= Seq::empty());
    assert(texts(r@) =~= lines_with_endings(s@));
    r
}

// ---------- pieces ----------

/// `text` without the line-ending characters at its end.
pub open spec fn without_ending(text: Seq<char>) -> Seq<char>
    decreases text.len(),
{
    if text.len() > 0 && (text.last() == '\n' || text.last() == '\r') {
        without_ending(text.drop_last())
    } else {
        text
    }
}

/// `text` without the line-ending characters at its end.
fn trim_ending(text: &str) -> (r: String)
    ensures
        r@ == without_ending(text@),
{
    let chars = chars_of(text);
    let mut n: usize = chars.len();
    assert(chars@.take(n as int) =~= chars@);
    while n > 0 && (chars[n - 1] == '\n' || chars[n - 1] == '\r')
        invariant
            0 <= n <= chars@.len(),
            without_ending(chars@) == without_ending(chars@.take(n as int)),
        decreases n,
    {
        assert(chars@.take(n as int).drop_last() =~= chars@.take(n - 1));
        n -= 1;
    }
    let r = text_between(&chars, 0, n);
    assert(r@ =~= chars@.take(n as int));
    r
}

/// The style in which a piece of code is drawn.
pub open spec fn drawn_style(style: TokenStyle, mode: ColorMode) -> Style {
    Style {
        fg: Some(adapted(Color::Rgb(style.red, style.green, style.blue), mode)),
        bg: None,
        bold: style.bold,
        italic: style.italic,
        underlined: style.underline,
    }
}

/// A piece of code as it is drawn: a span is one row and must not carry a line
/// ending.
pub open spec fn drawn_piece(piece: (TokenStyle, Seq<char>), mode: ColorMode) -> SpanModel {
    styled_span(without_ending(piece.1), drawn_style(piece.0, mode))
}

/// A line of code as it is drawn; nothing where it could not be parsed.
pub open spec fn drawn_line(
    pieces: Option<Seq<(TokenStyle, Seq<char>)>>,
    mode: ColorMode,
) -> Seq<SpanModel> {
    match pieces {
        Some(pieces) => pieces.map_values(|p: (TokenStyle, Seq<char>)| drawn_piece(p, mode)),
        None => Seq::empty(),
    }
}

/// The model of what the engine makes of a line.
pub open spec fn parsed_models(pieces: Option<Vec<(TokenStyle, String)>>) -> Option<
    Seq<(TokenStyle, Seq<char>)>,
> {
    match pieces {
        Some(pieces) => Some(piece_models(pieces@)),
        None => None,
    }
}

/// Draw a line of code from what the engine makes of it.
pub fn draw_line(pieces: &Option<Vec<(TokenStyle, String)>>, mode: ColorMode) -> (r: Line)
    ensures
        r@ == drawn_line(parsed_models(*pieces), mode),
{
    let mut spans: Vec<Span> = Vec::new();
    if let Some(pieces) = pieces {
        let ghost drawn = drawn_line(Some(piece_models(pieces@)), mode);
        let mut i: usize = 0;
        while i < pieces.len()
            invariant
                0 <= i <= pieces@.len(),
                drawn == drawn_line(Some(piece_models(pieces@)), mode),
                span_models(spans@) == drawn.take(i as int),
            decreases pieces@.len() - i,
        {
            let style = pieces[i].0;
            let color = adapt(Color::Rgb(style.red, style.green, style.blue), mode);
            let style = Style {
                fg: Some(color),
                bg: None,
                bold: style.bold,
                italic: style.italic,
                underlined: style.underline,
            };
            let ghost before = span_models(spans@);
            let span = Span::styled(trim_ending(pieces[i].1.as_str()), style);
            spans.push(span);
            assert(span_models(spans@) =~= before.push(span@));
            assert(span@ == drawn[i as int]);
            i += 1;
            assert(span_models(spans@) =~= drawn.take(i as int));
        }
        assert(drawn.take(i as int) =~= drawn);
    }
    assert(span_models(spans@) =~= drawn_line(parsed_models(*pieces), mode));
    Line { spans }
}

// ---------- what a drawn line keeps ----------

/// `text` without any line-ending characters.
pub open spec fn bare(text: Seq<char>) -> Seq<char>
    decreases text.len(),
{
    if text.len() == 0 {
        Seq::empty()
    } else if text.last() == '\n' || text.last() == '\r' {
        bare(text.drop_last())
    } else {
        bare(text.drop_last()).push(text.last())
    }
}

/// The text of spans, put together.
pub open spec fn spans_text(spans: Seq<SpanModel>) -> Seq<char>
    decreases spans.len(),
{
    if spans.len() == 0 {
        Seq::empty()
    } else {
        spans_text(spans.drop_last()) + spans.last().content
    }
}

/// A drawn line of code stays in its row, and shows the text of the line from
/// its start: all of it, or as far as it could be parsed.
pub open spec fn is_drawn_line(drawn: Seq<SpanModel>, line: Seq<char>) -> bool {
    &&& forall|i: int| 0 <= i < drawn.len() ==> !(#[trigger] drawn[i]).content.contains('\n')
    &&& bare(spans_text(drawn)).is_prefix_of(bare(line))
}

/// The engine returns the whole line.
pub open spec fn is_whole(pieces: Option<Seq<(TokenStyle, Seq<char>)>>, line: Seq<char>) -> bool {
    pieces matches Some(p) && piece_text(p) == line
}

proof fn lemma_bare_concat(a: Seq<char>, b: Seq<char>)
    ensures
        bare(a + b) == bare(a) + bare(b),
    decreases b.len(),
{
    if b.len() == 0 {
        assert(a + b =~= a);
        assert(bare(a) + bare(b) =~= bare(a));
    } else {
        lemma_bare_concat(a, b.drop_last());
        assert((a + b).drop_last() =~= a + b.drop_last());
        assert(bare(a + b) =~= bare(a) + bare(b));
    }
}

pub proof fn lemma_without_ending(text: Seq<char>)
    ensures
        bare(without_ending(text)) == bare(text),
        without_ending(text).is_prefix_of(text),
        without_ending(text).len() > 0 ==> without_ending(text).last() != '\n'
            && without_ending(text).last() != '\r',
    decreases text.len(),
{
    if text.len() > 0 && (text.last() == '\n' || text.last() == '\r') {
        lemma_without_ending(text.drop_last());
    }
}

/// Where a character of a piece stands in the text of all pieces.
proof fn lemma_piece_char(pieces: Seq<(TokenStyle, Seq<char>)>, i: int, j: int)
    requires
        0 <= i < pieces.len(),
        0 <= j < pieces[i].1.len(),
    ensures
        piece_text(pieces.take(i)).len() + pieces[i].1.len() <= piece_text(pieces).len(),
        piece_text(pieces)[piece_text(pieces.take(i)).len() + j] == pieces[i].1[j],
    decreases pieces.len(),
{
    let before = pieces.drop_last();
    if i < pieces.len() - 1 {
        lemma_piece_char(before, i, j);
        assert(before.take(i) =~= pieces.take(i));
        assert(before[i] == pieces[i]);
    } else {
        assert(before =~= pieces.take(i));
    }
}

proof fn lemma_drawn_text(pieces: Seq<(TokenStyle, Seq<char>)>, mode: ColorMode)
    ensures
        bare(spans_text(drawn_line(Some(pieces), mode))) == bare(piece_text(pieces)),
    decreases pieces.len(),
{
    let drawn = drawn_line(Some(pieces), mode);
    if pieces.len() > 0 {
        let before = pieces.drop_last();
        lemma_drawn_text(before, mode);
        assert(drawn.drop_last() =~= drawn_line(Some(before), mode));
        lemma_without_ending(pieces.last().1);
        lemma_bare_concat(spans_text(drawn.drop_last()), drawn.last().content);
        lemma_bare_concat(piece_text(before), pieces.last().1);
    }
}

/// A line of which the engine returns the text, or a first part of it, is drawn
/// in one row and shows that text; all of the line where all of it is returned.
pub proof fn law_drawn_line_shows_the_line(
    pieces: Option<Seq<(TokenStyle, Seq<char>)>>,
    line: Seq<char>,
    mode: ColorMode,
)
    requires
        !line.drop_last().contains('\n'),
        pieces matches Some(p) ==> piece_text(p).is_prefix_of(line),
    ensures
        is_drawn_line(drawn_line(pieces, mode), line),
        is_whole(pieces, line) ==> bare(spans_text(drawn_line(pieces, mode))) == bare(line),
{
    let drawn = drawn_line(pieces, mode);
    if let Some(pieces) = pieces {
        let text = piece_text(pieces);
        assert forall|i: int| 0 <= i < drawn.len() implies !(#[trigger] drawn[i]).content.contains(
            '\n',
        ) by {
            let piece = pieces[i].1;
            let content = drawn[i].content;
            lemma_without_ending(piece);
            assert forall|j: int| 0 <= j < content.len() implies content[j] != '\n' by {
                lemma_piece_char(pieces, i, j);
                let at = piece_text(pieces.take(i)).len() + j;
                assert(line[at] == content[j]);
                if content[j] == '\n' {
                    if at < line.len() - 1 {
                        assert(line.drop_last()[at] == '\n');
                    }
                    assert(j == content.len() - 1);
                }
            }
        }
        lemma_drawn_text(pieces, mode);
        let rest = line.skip(text.len() as int);
        lemma_bare_concat(text, rest);
        assert(line =~= text + rest);
    } else {
        assert(bare(spans_text(drawn)) =~= Seq::empty());
    }
}

// ---------- code with ordinary line endings ----------

/// Carriage returns occur only in line endings, right before a line feed.
pub open spec fn returns_end_lines(code: Seq<char>) -> bool {
    forall|i: int|
        0 <= i < code.len() && #[trigger] code[i] == '\r' ==> i + 1 < code.len() && code[i + 1]
            == '\n'
}

pub proof fn lemma_expanded_concat(a: Seq<char>, b: Seq<char>)
    ensures
        expanded(a + b) == expanded(a) + expanded(b),
    decreases b.len(),
{
    if b.len() == 0 {
        assert(a + b =~= a);
        assert(expanded(a) + expanded(b) =~= expanded(a));
    } else {
        lemma_expanded_concat(a, b.drop_last());
        assert((a + b).drop_last() =~= a + b.drop_last());
        assert(expanded(a + b) =~= expanded(a) + expanded(b));
    }
}

/// Expanding tabs brings in no character but the space.
proof fn lemma_expanded_lacks(code: Seq<char>, c: char)
    requires
        c != ' ',
        !code.contains(c),
    ensures
        !expanded(code).contains(c),
    decreases code.len(),
{
    if code.len() > 0 {
        let before = code.drop_last();
        assert(code.contains(code.last()));
        assert forall|i: int| 0 <= i < before.len() implies before[i] != c by {
            assert(code.contains(code[i]));
        }
        lemma_expanded_lacks(before, c);
        assert forall|i: int| 0 <= i < expanded(code).len() implies expanded(code)[i] != c by {
            if i < expanded(before).len() {
                assert(expanded(code)[i] == expanded(before)[i]);
                assert(expanded(before).contains(expanded(before)[i]));
            }
        }
    }
}

/// Tabs can be expanded before or after the code is split into lines.
pub proof fn law_tabs_do_not_change_lines(code: Seq<char>)
    ensures
        lines_with_endings(expanded(code)).len() == lines_with_endings(code).len(),
        forall|i: int|
            0 <= i < lines_with_endings(code).len() ==> #[trigger] lines_with_endings(
                expanded(code),
            )[i] == expanded(lines_with_endings(code)[i]),
    decreases code.len(),
{
    if code.len() > 0 {
        let end = first_line_end(code);
        let line = code.take(end);
        let rest = code.skip(end);
        law_lines_with_endings(code);
        assert(lines_with_endings(code)[0] == line);
        assert(code =~= line + rest);
        lemma_expanded_concat(line, rest);
        law_tabs_do_not_change_lines(rest);
        let body = line.drop_last();
        lemma_expanded_lacks(body, '\n');
        if line.last() == '\n' {
            assert(expanded(line).drop_last() =~= expanded(body));
            lemma_one_line(expanded(line));
            lemma_lines_concat(expanded(line), expanded(rest));
            assert(lines_with_endings(expanded(code)) =~= seq![expanded(line)]
                + lines_with_endings(expanded(rest)));
        } else {
            assert(rest.len() == 0) by {
                if rest.len() > 0 {
                    assert(lines_with_endings(rest).len() > 0) by {
                        lemma_first_from(rest, 0, |c: char| c == '\n');
                    }
                }
            }
            assert(expanded(code) =~= expanded(line));
            assert forall|i: int| 0 <= i < line.len() implies line[i] != '\n' by {
                if i < body.len() {
                    assert(body.contains(body[i]));
                }
            }
            lemma_expanded_lacks(line, '\n');
            let wide = expanded(line);
            assert forall|i: int| 0 <= i < wide.drop_last().len() implies wide.drop_last()[i]
                != '\n' by {
                assert(wide.contains(wide[i]));
            }
            lemma_one_line(wide);
        }
    }
}

/// What holds of the code holds of its lines: carriage returns end lines.
pub proof fn lemma_returns_end_each_line(code: Seq<char>, k: int)
    requires
        returns_end_lines(code),
        0 <= k < lines_with_endings(code).len(),
    ensures
        returns_end_lines(lines_with_endings(code)[k]),
    decreases code.len(),
{
    let end = first_line_end(code);
    let line = code.take(end);
    let rest = code.skip(end);
    law_lines_with_endings(code);
    assert(lines_with_endings(code)[0] == line);
    if k == 0 {
        assert forall|i: int| 0 <= i < line.len() && #[trigger] line[i] == '\r' implies i + 1
            < line.len() && line[i + 1] == '\n' by {
            assert(code[i] == '\r');
            if i + 1 == end {
                lemma_first_from(code, 0, |c: char| c == '\n');
                assert(line.last() == '\n');
            }
        }
    } else {
        assert forall|i: int| 0 <= i < rest.len() && #[trigger] rest[i] == '\r' implies i + 1
            < rest.len() && rest[i + 1] == '\n' by {
            assert(code[end + i] == '\r');
        }
        lemma_returns_end_each_line(rest, k - 1);
        assert(lines_with_endings(code)[k] == lines_with_endings(rest)[k - 1]);
    }
}

/// Text without line-ending characters is bare.
proof fn lemma_bare_text(text: Seq<char>)
    requires
        !text.contains('\n'),
        !text.contains('\r'),
    ensures
        bare(text) == text,
    decreases text.len(),
{
    if text.len() > 0 {
        let before = text.drop_last();
        assert(text.contains(text.last()));
        assert forall|i: int| 0 <= i < before.len() implies before[i] != '\n' && before[i]
            != '\r' by {
            assert(text.contains(text[i]));
        }
        lemma_bare_text(before);
        assert(text =~= before.push(text.last()));
    }
}

/// A line with an ordinary ending, its tabs expanded, is bare but for the ending.
proof fn lemma_bare_line(line: Seq<char>)
    requires
        line.len() > 0,
        !line.drop_last().contains('\n'),
        returns_end_lines(line),
    ensures
        bare(expanded(line)) == expanded(line_body(line)),
        returns_end_lines(expanded(line)),
{
    let body = line_body(line);
    let n = body.len() as int;
    let ending = line.skip(n);
    assert(line =~= body + ending);
    assert forall|i: int| 0 <= i < n implies body[i] != '\n' && body[i] != '\r' by {
        assert(line[i] == body[i]);
        if i < line.len() - 1 {
            assert(line.drop_last()[i] == line[i]);
            assert(line.drop_last().contains(line.drop_last()[i]));
        }
        if line[i] == '\r' {
            assert(line[i + 1] == '\n');
            if i + 1 < line.len() - 1 {
                assert(line.drop_last()[i + 1] == '\n');
            }
        }
    }
    lemma_expanded_lacks(body, '\n');
    lemma_expanded_lacks(body, '\r');
    lemma_bare_text(expanded(body));
    lemma_expanded_concat(body, ending);
    lemma_bare_concat(expanded(body), ending);
    assert(!ending.contains('\t'));
    law_code_without_tabs_is_kept(ending);
    assert(bare(ending) =~= Seq::empty()) by {
        reveal_with_fuel(bare, 3);
    }
    assert(bare(expanded(line)) =~= expanded(body));
    let wide = expanded(line);
    assert(wide =~= expanded(body) + ending);
    assert forall|i: int| 0 <= i < wide.len() && #[trigger] wide[i] == '\r' implies i + 1
        < wide.len() && wide[i + 1] == '\n' by {
        let m = expanded(body).len() as int;
        if i < m {
            assert(expanded(body).contains(expanded(body)[i]));
        } else {
            assert(ending[i - m] == '\r');
        }
    }
}

/// Where carriage returns only end lines, no drawn span holds one.
proof fn lemma_drawn_without_returns(
    pieces: Seq<(TokenStyle, Seq<char>)>,
    line: Seq<char>,
    mode: ColorMode,
    i: int,
)
    requires
        !line.drop_last().contains('\n'),
        returns_end_lines(line),
        piece_text(pieces).is_prefix_of(line),
        0 <= i < pieces.len(),
    ensures
        !drawn_line(Some(pieces), mode)[i].content.contains('\r'),
{
    let piece = pieces[i].1;
    let content = drawn_line(Some(pieces), mode)[i].content;
    lemma_without_ending(piece);
    assert forall|j: int| 0 <= j < content.len() implies content[j] != '\r' by {
        if content[j] == '\r' {
            lemma_piece_char(pieces, i, j);
            let at = piece_text(pieces.take(i)).len() + j;
            assert(line[at] == '\r');
            assert(line[at + 1] == '\n');
            if at + 1 < line.len() - 1 {
                assert(line.drop_last()[at + 1] == '\n');
            }
            assert(piece.len() <= j + 2);
            if j + 1 < piece.len() {
                lemma_piece_char(pieces, i, j + 1);
            }
        }
    }
}

proof fn lemma_text_of_spans_lacks(spans: Seq<SpanModel>, c: char)
    requires
        forall|i: int| 0 <= i < spans.len() ==> !(#[trigger] spans[i]).content.contains(c),
    ensures
        !spans_text(spans).contains(c),
    decreases spans.len(),
{
    if spans.len() > 0 {
        let before = spans.drop_last();
        lemma_text_of_spans_lacks(before, c);
        let text = spans_text(spans);
        assert forall|i: int| 0 <= i < text.len() implies text[i] != c by {
            let m = spans_text(before).len() as int;
            if i < m {
                assert(spans_text(before).contains(spans_text(before)[i]));
            } else {
                assert(spans.last().content.contains(spans.last().content[i - m]));
            }
        }
    }
}

/// A line with an ordinary ending that the engine returns whole is drawn as its
/// text, with spaces for tabs and without the ending.
pub proof fn law_whole_line_is_drawn_as_its_text(
    pieces: Option<Seq<(TokenStyle, Seq<char>)>>,
    line: Seq<char>,
    mode: ColorMode,
)
    requires
        line.len() > 0,
        !line.drop_last().contains('\n'),
        returns_end_lines(line),
        is_whole(pieces, expanded(line)),
    ensures
        spans_text(drawn_line(pieces, mode)) == expanded(line_body(line)),
        forall|i: int|
            0 <= i < drawn_line(pieces, mode).len() ==> !(#[trigger] drawn_line(
                pieces,
                mode,
            )[i]).content.contains('\n') && !drawn_line(pieces, mode)[i].content.contains('\r'),
{
    let wide = expanded(line);
    let drawn = drawn_line(pieces, mode);
    let body = line.drop_last();
    lemma_bare_line(line);
    lemma_expanded_lacks(body, '\n');
    lemma_expanded_concat(body, seq![line.last()]);
    assert(line =~= body + seq![line.last()]);
    assert forall|i: int| 0 <= i < wide.drop_last().len() implies wide.drop_last()[i] != '\n' by {
        if i < expanded(body).len() {
            assert(expanded(body).contains(expanded(body)[i]));
        } else {
            assert(line.last() == '\t') by {
                if line.last() != '\t' {
                    assert(wide =~= expanded(body).push(line.last()));
                }
            }
        }
    }
    law_drawn_line_shows_the_line(pieces, wide, mode);
    let p = pieces->0;
    assert forall|i: int| 0 <= i < drawn.len() implies !(#[trigger] drawn[i]).content.contains(
        '\r',
    ) by {
        lemma_drawn_without_returns(p, wide, mode, i);
    }
    lemma_text_of_spans_lacks(drawn, '\n');
    lemma_text_of_spans_lacks(drawn, '\r');
    lemma_bare_text(spans_text(drawn));
}

} // verus!
