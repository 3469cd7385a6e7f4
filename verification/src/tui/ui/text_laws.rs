//! Where text is broken into lines, and what inline code is.
use crate::text::{lemma_first_from, lemma_first_from_unique};
use crate::tui::style::SpanModel;
use crate::tui::theme::UiTheme;
use crate::tui::ui::inline::{backtick_from, inline_spans};
use crate::tui::ui::row_laws::{code_style, wanted_style};
use crate::tui::ui::util::{
    cells, fitting, last_space, lemma_after_spaces, lemma_fitting, lemma_last_space,
    lemma_text_cells_concat, line_break, text_cells, wrapped,
};
use vstd::prelude::*;

verus! {

// ---------- wrapping ----------

proof fn lemma_text_cells_first(s: Seq<char>)
    requires
        s.len() > 0,
    ensures
        text_cells(s) == cells(s[0]) + text_cells(s.drop_first()),
{
    let first = seq![s[0]];
    assert(first + s.drop_first() =~= s);
    lemma_text_cells_concat(first, s.drop_first());
    assert(first.drop_last() =~= Seq::empty());
    assert(text_cells(first.drop_last()) == 0);
}

/// What is within the width fits.
proof fn lemma_fitting_reaches(s: Seq<char>, width: nat, k: int)
    requires
        0 <= k <= s.len(),
        text_cells(s.take(k)) <= width,
    ensures
        fitting(s, width) >= k,
    decreases s.len(),
{
    if k > 0 {
        let head = s.take(k);
        lemma_text_cells_first(head);
        assert(head.drop_first() =~= s.drop_first().take(k - 1));
        lemma_fitting_reaches(s.drop_first(), (width - cells(s[0])) as nat, k - 1);
    }
}

/// Text that fits stays on one line.
pub proof fn law_text_that_fits_is_one_line(s: Seq<char>, width: nat)
    requires
        text_cells(s) <= width,
    ensures
        wrapped(s, width) == seq![s],
{
    assert(s.take(s.len() as int) =~= s);
    lemma_fitting_reaches(s, width, s.len() as int);
}

/// Text that does not fit is broken as late as it can be. Its first line ends at
/// `r.0`, and the rest of the text, if any, is wrapped from `r.1` on; only spaces
/// are left out between them. No space or end of the text further on is within
/// reach. A word is broken only if it stands alone on its line, and then after
/// as many characters as fit, at least one.
pub proof fn law_lines_are_as_long_as_they_can_be(s: Seq<char>, width: nat) -> (r: (int, int))
    requires
        text_cells(s) > width,
    ensures
        0 < r.0 <= r.1 <= s.len(),
        wrapped(s, width)[0] == s.take(r.0),
        r.1 < s.len() ==> wrapped(s, width).drop_first() == wrapped(s.skip(r.1), width),
        r.1 == s.len() ==> wrapped(s, width).len() == 1,
        forall|j: int| r.0 <= j < r.1 ==> s[j] == ' ',
        r.0 < r.1 < s.len() ==> s[r.1] != ' ',
        forall|p: int|
            #![trigger s.take(p)]
            r.1 < p <= s.len() && (p == s.len() || s[p] == ' ') ==> text_cells(s.take(p)) > width,
        r.0 == r.1 ==> forall|j: int|
            0 < j < s.len() && s[j] == ' ' ==> text_cells(#[trigger] s.take(j)) > width,
        r.0 == r.1 && r.0 < s.len() ==> text_cells(s.take(r.0 + 1)) > width,
        r.0 == r.1 ==> r.0 == 1 || text_cells(s.take(r.0)) <= width,
{
    let k = fitting(s, width) as int;
    let n = s.len() as int;
    assert(s.take(n) =~= s);
    if k >= n {
        lemma_fitting(s, width, n);
    }
    lemma_fitting(s, width, k);
    lemma_last_space(s, k);
    let space = last_space(s, k);
    let (end, next) = line_break(s, width);
    if space > 0 {
        lemma_after_spaces(s, space);
    }
    assert forall|p: int| #![trigger s.take(p)] k < p <= n implies text_cells(s.take(p))
        > width by {
        if text_cells(s.take(p)) <= width {
            lemma_fitting_reaches(s, width, p);
        }
    }
    if next < n {
        assert(wrapped(s, width).drop_first() =~= wrapped(s.skip(next), width));
    }
    (end, next)
}

// ---------- inline code ----------

/// `s` as ordinary text.
pub open spec fn as_text(s: Seq<char>, theme: UiTheme) -> Seq<SpanModel> {
    if s.len() == 0 {
        Seq::empty()
    } else {
        seq![SpanModel { content: s, style: wanted_style(theme, false, false) }]
    }
}

/// Text between a backtick and the next one is code, without the backticks; what
/// stands before it is ordinary text, and what follows is formatted on its own.
pub proof fn law_code_stands_between_marks(
    before: Seq<char>,
    code: Seq<char>,
    after: Seq<char>,
    theme: UiTheme,
)
    requires
        !before.contains('`'),
        !code.contains('`'),
    ensures
        inline_spans(before + seq!['`'] + code + seq!['`'] + after, theme) == as_text(before, theme)
            + seq![SpanModel { content: code, style: code_style(theme) }] + inline_spans(
            after,
            theme,
        ),
{
    let s = before + seq!['`'] + code + seq!['`'] + after;
    let is_mark = |c: char| c == '`';
    let open = before.len() as int;
    let close = open + 1 + code.len();
    assert forall|j: int| 0 <= j < open implies s[j] != '`' by {
        assert(before.contains(s[j])) by {
            assert(s[j] == before[j]);
        }
    }
    assert forall|j: int| open + 1 <= j < close implies s[j] != '`' by {
        assert(code.contains(s[j])) by {
            assert(s[j] == code[j - open - 1]);
        }
    }
    lemma_first_from_unique(s, 0, is_mark, open);
    lemma_first_from_unique(s, open + 1, is_mark, close);
    assert(s.take(open) =~= before);
    assert(s.subrange(open + 1, close) =~= code);
    assert(s.skip(close + 1) =~= after);
}

/// Text with at most one backtick is ordinary text as a whole.
pub proof fn law_a_single_mark_is_text(s: Seq<char>, theme: UiTheme)
    requires
        forall|i: int, j: int| 0 <= i < j < s.len() && s[i] == '`' ==> s[j] != '`',
    ensures
        inline_spans(s, theme) == as_text(s, theme),
{
    let is_mark = |c: char| c == '`';
    let open = backtick_from(s, 0);
    let close = backtick_from(s, open + 1);
    if 0 <= open < close < s.len() {
        lemma_first_from(s, 0, is_mark);
        lemma_first_from(s, open + 1, is_mark);
    }
}

} // verus!
