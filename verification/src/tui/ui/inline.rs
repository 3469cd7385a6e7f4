//! Inline markdown within a line of text.
use crate::text::{chars_of, first_from, lemma_first_from, lemma_first_from_unique, text_between};
use crate::tui::style::{span_models, styled_span, Span, SpanModel};
use crate::tui::theme::UiTheme;
use crate::tui::ui::util::{lemma_text_cells_concat, text_cells};
use vstd::prelude::*;

verus! {

/// The first backtick of `s` from `from` on, or the length of `s`.
pub open spec fn backtick_from(s: Seq<char>, from: int) -> int {
    first_from(s, from, |c: char| c == '`')
}

/// `s` as one span of ordinary text, or nothing if it is empty.
pub open spec fn plain_spans(s: Seq<char>, theme: UiTheme) -> Seq<SpanModel> {
    if s.len() == 0 {
        Seq::empty()
    } else {
        seq![styled_span(s, theme.text_style())]
    }
}

/// The spans of `s`: text between a backtick and the next one is code, drawn
/// without the backticks; the rest, a backtick without a partner with it, is
/// ordinary text.
pub open spec fn inline_spans(s: Seq<char>, theme: UiTheme) -> Seq<SpanModel>
    decreases s.len(),
{
    let open = backtick_from(s, 0);
    let close = backtick_from(s, open + 1);
    if 0 <= open < close < s.len() {
        plain_spans(s.take(open), theme) + seq![
            styled_span(s.subrange(open + 1, close), theme.inline_code_style()),
        ] + inline_spans(s.skip(close + 1), theme)
    } else {
        plain_spans(s, theme)
    }
}

/// The number of cells that the contents of the spans take together.
pub open spec fn spans_cells(spans: Seq<SpanModel>) -> nat
    decreases spans.len(),
{
    if spans.len() == 0 {
        0
    } else {
        spans_cells(spans.drop_last()) + text_cells(spans.last().content)
    }
}

/// Widths add up over concatenation.
pub proof fn lemma_spans_cells_concat(a: Seq<SpanModel>, b: Seq<SpanModel>)
    ensures
        spans_cells(a + b) == spans_cells(a) + spans_cells(b),
    decreases b.len(),
{
    if b.len() == 0 {
        assert(a + b =~= a);
    } else {
        lemma_spans_cells_concat(a, b.drop_last());
        assert((a + b).drop_last() =~= a + b.drop_last());
    }
}

/// A single span is as wide as its content.
pub proof fn lemma_one_span_cells(span: SpanModel)
    ensures
        spans_cells(seq![span]) == text_cells(span.content),
{
    assert(seq![span].drop_last() =~= Seq::empty());
    assert(spans_cells(seq![span].drop_last()) == 0);
}

/// Formatting makes no text wider.
pub proof fn law_inline_spans_are_no_wider(s: Seq<char>, theme: UiTheme)
    ensures
        spans_cells(inline_spans(s, theme)) <= text_cells(s),
    decreases s.len(),
{
    let open = backtick_from(s, 0);
    let close = backtick_from(s, open + 1);
    if 0 <= open < close < s.len() {
        let plain = plain_spans(s.take(open), theme);
        let code = styled_span(s.subrange(open + 1, close), theme.inline_code_style());
        let rest = s.skip(close + 1);
        law_inline_spans_are_no_wider(rest, theme);
        lemma_plain_spans_cells(s.take(open), theme);
        lemma_one_span_cells(code);
        lemma_spans_cells_concat(plain, seq![code]);
        lemma_spans_cells_concat(plain + seq![code], inline_spans(rest, theme));
        let marks = s.subrange(open, open + 1);
        let tail = s.subrange(close, close + 1);
        lemma_text_cells_concat(s.take(open), marks);
        lemma_text_cells_concat(s.take(open) + marks, code.content);
        lemma_text_cells_concat(s.take(open) + marks + code.content, tail);
        lemma_text_cells_concat(s.take(open) + marks + code.content + tail, rest);
        assert(s.take(open) + marks + code.content + tail + rest =~= s);
    } else {
        lemma_plain_spans_cells(s, theme);
    }
}

proof fn lemma_plain_spans_cells(s: Seq<char>, theme: UiTheme)
    ensures
        spans_cells(plain_spans(s, theme)) == text_cells(s),
{
    if s.len() > 0 {
        lemma_one_span_cells(styled_span(s, theme.text_style()));
    }
}

/// The first backtick from `from` on, or the number of characters.
fn find_backtick(chars: &Vec<char>, from: usize) -> (r: usize)
    requires
        from <= chars@.len(),
    ensures
        r == backtick_from(chars@, from as int),
        from <= r <= chars@.len(),
{
    let ghost is_mark = |c: char| c == '`';
    let mut i: usize = from;
    while i < chars.len() && chars[i] != '`'
        invariant
            from <= i <= chars@.len(),
            forall|j: int| from <= j < i ==> chars@[j] != '`',
        decreases chars@.len() - i,
    {
        i += 1;
    }
    proof {
        lemma_first_from_unique(chars@, from as int, is_mark, i as int);
    }
    i
}

/// Looking for a backtick in the rest of a text or in the text from there on is
/// the same.
proof fn lemma_backtick_in_rest(s: Seq<char>, from: int, at: int)
    requires
        0 <= from <= at <= s.len(),
    ensures
        backtick_from(s.skip(from), at - from) == backtick_from(s, at) - from,
{
    let is_mark = |c: char| c == '`';
    lemma_first_from(s, at, is_mark);
    let k = backtick_from(s, at) - from;
    lemma_first_from_unique(s.skip(from), at - from, is_mark, k);
}

/// Appends `chars` from `from` to `to` as ordinary text, unless that is empty.
fn push_plain(spans: &mut Vec<Span>, chars: &Vec<char>, from: usize, to: usize, theme: &UiTheme)
    requires
        from <= to <= chars@.len(),
    ensures
        span_models(final(spans)@) == span_models(old(spans)@) + plain_spans(
            chars@.subrange(from as int, to as int),
            *theme,
        ),
{
    let ghost before = span_models(spans@);
    if from < to {
        spans.push(Span::styled(text_between(chars, from, to), theme.text_style()));
    }
    assert(span_models(spans@) =~= before + plain_spans(
        chars@.subrange(from as int, to as int),
        *theme,
    ));
}

/// Format the inline code of a line of text.
pub fn format_inline_markdown(text: &str, theme: &UiTheme) -> (r: Vec<Span>)
    ensures
        span_models(r@) == inline_spans(text@, *theme),
{
    let chars = chars_of(text);
    let n: usize = chars.len();
    let mut spans: Vec<Span> = Vec::new();
    let mut from: usize = 0;
    assert(chars@.skip(0) =~= chars@);
    assert(span_models(spans@) + inline_spans(text@, *theme) =~= inline_spans(text@, *theme));
    loop
        invariant
            0 <= from <= n == chars@.len(),
            inline_spans(text@, *theme) == span_models(spans@) + inline_spans(
                chars@.skip(from as int),
                *theme,
            ),
        decreases n - from,
    {
        let ghost s = chars@.skip(from as int);
        let ghost before = span_models(spans@);
        let open = find_backtick(&chars, from);
        let close = if open < n {
            find_backtick(&chars, open + 1)
        } else {
            n
        };
        proof {
            lemma_backtick_in_rest(chars@, from as int, from as int);
            if open < n {
                lemma_backtick_in_rest(chars@, from as int, open + 1);
            }
        }
        if close >= n {
            push_plain(&mut spans, &chars, from, n, theme);
            assert(chars@.subrange(from as int, n as int) =~= s);
            return spans;
        }
        push_plain(&mut spans, &chars, from, open, theme);
        let ghost middle = span_models(spans@);
        let code = Span::styled(text_between(&chars, open + 1, close), theme.inline_code_style());
        spans.push(code);
        proof {
            assert(chars@.subrange(from as int, open as int) =~= s.take(open - from));
            assert(chars@.subrange(open + 1, close as int) =~= s.subrange(
                open - from + 1,
                close - from,
            ));
            assert(s.skip(close - from + 1) =~= chars@.skip(close + 1));
            assert(span_models(spans@) =~= middle + seq![code@]);
            assert(inline_spans(text@, *theme) =~= span_models(spans@) + inline_spans(
                chars@.skip(close + 1),
                *theme,
            ));
        }
        from = close + 1;
    }
}

} // verus!
