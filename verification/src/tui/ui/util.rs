//! Measuring, wrapping and aligning text in terminal cells.
use crate::parser::output::Alignment;
use crate::text::{chars_of, push_repeated, repeated, text_between};
use vstd::prelude::*;

verus! {

// ---------- width ----------

/// The number of columns that `ratatui::text::Span::width` gives to a span that
/// holds just this character.
pub uninterp spec fn span_columns(c: char) -> nat;

/// Characters of one cell by the rules of the Unicode standard: printable
/// ASCII, the box-drawing block and the arrow to the right.
pub open spec fn is_single_cell(c: char) -> bool {
    ||| ' ' <= c <= '~'
    ||| '\u{2500}' <= c <= '\u{257f}'
    ||| c == '→'
}

/// The number of terminal cells that a character takes, at most three.
pub open spec fn cells(c: char) -> nat {
    if is_single_cell(c) {
        1
    } else if span_columns(c) <= 3 {
        span_columns(c)
    } else {
        3
    }
}

/// The number of terminal cells that a text takes.
pub open spec fn text_cells(s: Seq<char>) -> nat
    decreases s.len(),
{
    if s.len() == 0 {
        0
    } else {
        text_cells(s.drop_last()) + cells(s.last())
    }
}

/// `n`, or the greatest `usize` if `n` is beyond it.
pub open spec fn capped(n: nat) -> nat {
    if n <= usize::MAX {
        n
    } else {
        usize::MAX as nat
    }
}

/// The columns of a character, by `ratatui::text::Span::width` on a span that
/// holds nothing else. The result depends on the character alone; it is one for
/// printable ASCII, box-drawing characters and the arrow to the right, and never
/// more than three. What it is for any other given character is left unsaid.
#[verifier::external_body]
fn char_columns(c: char) -> (r: usize)
    ensures
        r == span_columns(c),
        r == cells(c),
{
    ratatui::text::Span::raw(c.to_string()).width()
}

/// Widths add up over concatenation.
pub proof fn lemma_text_cells_concat(a: Seq<char>, b: Seq<char>)
    ensures
        text_cells(a + b) == text_cells(a) + text_cells(b),
    decreases b.len(),
{
    if b.len() == 0 {
        assert(a + b =~= a);
    } else {
        lemma_text_cells_concat(a, b.drop_last());
        assert((a + b).drop_last() =~= a + b.drop_last());
    }
}

/// Characters of one cell take as many cells as there are characters.
pub proof fn lemma_single_cells(s: Seq<char>)
    requires
        forall|i: int| 0 <= i < s.len() ==> is_single_cell(#[trigger] s[i]),
    ensures
        text_cells(s) == s.len(),
    decreases s.len(),
{
    if s.len() > 0 {
        lemma_single_cells(s.drop_last());
    }
}

/// The number of cells a text takes on the terminal.
pub fn terminal_width(s: &str) -> (r: usize)
    ensures
        r == capped(text_cells(s@)),
{
    let mut width: usize = 0;
    for c in it: s.chars()
        invariant
            it.seq() == s@,
            width == capped(text_cells(s@.take(it.index()))),
    {
        proof {
            let longer = s@.take(it.index() + 1);
            assert(longer.drop_last() =~= s@.take(it.index()));
        }
        width = width.saturating_add(char_columns(c));
    }
    assert(s@.take(s@.len() as int) =~= s@);
    width
}

// ---------- wrapping ----------

/// How many characters at the start of `s` fit into `width` cells.
pub open spec fn fitting(s: Seq<char>, width: nat) -> nat
    decreases s.len(),
{
    if s.len() == 0 || cells(s[0]) > width {
        0
    } else {
        1 + fitting(s.drop_first(), (width - cells(s[0])) as nat)
    }
}

/// The last position from one up to `k` that holds a space, or zero.
pub open spec fn last_space(s: Seq<char>, k: int) -> int
    decreases k,
{
    if k <= 0 {
        0
    } else if s[k] == ' ' {
        k
    } else {
        last_space(s, k - 1)
    }
}

/// The first position from `i` on that does not hold a space.
pub open spec fn after_spaces(s: Seq<char>, i: int) -> int
    decreases s.len() - i,
{
    if i < s.len() && s[i] == ' ' {
        after_spaces(s, i + 1)
    } else {
        i
    }
}

/// Where the first line of `s` ends and where the next one starts, if `s` is
/// too long for one line: at the last space that the line can reach, which is
/// dropped with the spaces after it, or else after the last character that
/// fits. A line holds at least one character.
pub open spec fn line_break(s: Seq<char>, width: nat) -> (int, int) {
    let k = fitting(s, width) as int;
    let space = last_space(s, k);
    if space > 0 {
        (space, after_spaces(s, space))
    } else if k > 0 {
        (k, k)
    } else {
        (1, 1)
    }
}

/// `s` as lines of at most `width` cells, broken at spaces where possible.
pub open spec fn wrapped(s: Seq<char>, width: nat) -> Seq<Seq<char>>
    decreases s.len(),
{
    let (end, next) = line_break(s, width);
    if fitting(s, width) >= s.len() {
        seq![s]
    } else if end <= 0 || next <= 0 || next >= s.len() {
        seq![s.take(end)]
    } else {
        seq![s.take(end)] + wrapped(s.skip(next), width)
    }
}

/// What fits is within the width and not more than there is.
pub proof fn lemma_fitting(s: Seq<char>, width: nat, k: int)
    requires
        0 <= k <= fitting(s, width),
    ensures
        fitting(s, width) <= s.len(),
        text_cells(s.take(k)) <= width,
    decreases s.len(),
{
    if s.len() > 0 && cells(s[0]) <= width {
        let rest = (width - cells(s[0])) as nat;
        if k > 0 {
            lemma_fitting(s.drop_first(), rest, k - 1);
            lemma_text_cells_concat(seq![s[0]], s.drop_first().take(k - 1));
            assert(seq![s[0]] + s.drop_first().take(k - 1) =~= s.take(k));
            assert(seq![s[0]].drop_last() =~= Seq::empty());
            assert(text_cells(seq![s[0]]) == cells(s[0])) by {
                assert(text_cells(seq![s[0]].drop_last()) == 0);
            }
        } else {
            lemma_fitting(s.drop_first(), rest, 0);
            assert(s.take(0) =~= Seq::empty());
        }
    } else {
        assert(s.take(0) =~= Seq::empty());
    }
}

/// The last space lies in its range.
pub proof fn lemma_last_space(s: Seq<char>, k: int)
    requires
        k < s.len(),
    ensures
        0 <= last_space(s, k),
        last_space(s, k) > 0 ==> last_space(s, k) <= k && s[last_space(s, k)] == ' ',
        forall|j: int| last_space(s, k) < j <= k && j > 0 ==> s[j] != ' ',
    decreases k,
{
    if k > 0 && s[k] != ' ' {
        lemma_last_space(s, k - 1);
    }
}

/// Only spaces are skipped.
pub proof fn lemma_after_spaces(s: Seq<char>, i: int)
    requires
        0 <= i <= s.len(),
    ensures
        i <= after_spaces(s, i) <= s.len(),
        forall|j: int| i <= j < after_spaces(s, i) ==> s[j] == ' ',
        after_spaces(s, i) < s.len() ==> s[after_spaces(s, i)] != ' ',
    decreases s.len() - i,
{
    if i < s.len() && s[i] == ' ' {
        lemma_after_spaces(s, i + 1);
    }
}

/// A text that is too long for a line breaks within itself, and moves on.
proof fn lemma_line_break(s: Seq<char>, width: nat)
    requires
        fitting(s, width) < s.len(),
    ensures
        ({
            let (end, next) = line_break(s, width);
            &&& 0 < end <= next <= s.len()
            &&& text_cells(s.take(end)) <= width || end == 1
            &&& forall|j: int| end <= j < next ==> s[j] == ' '
        }),
{
    let k = fitting(s, width) as int;
    lemma_fitting(s, width, k);
    lemma_last_space(s, k);
    let space = last_space(s, k);
    if space > 0 {
        lemma_fitting(s, width, space);
        lemma_after_spaces(s, space);
    }
}

/// The models of a sequence of texts.
pub open spec fn texts(lines: Seq<String>) -> Seq<Seq<char>> {
    lines.map_values(|s: String| s@)
}

/// How many characters from `from` on fit into `width` cells.
fn count_fitting(chars: &Vec<char>, from: usize, width: usize) -> (r: usize)
    requires
        from <= chars@.len(),
    ensures
        r == fitting(chars@.skip(from as int), width as nat),
        r <= chars@.len() - from,
{
    let mut k: usize = from;
    let mut left: usize = width;
    while k < chars.len()
        invariant
            from <= k <= chars@.len(),
            fitting(chars@.skip(from as int), width as nat) == k - from + fitting(
                chars@.skip(k as int),
                left as nat,
            ),
        decreases chars@.len() - k,
    {
        let columns = char_columns(chars[k]);
        if columns > left {
            return k - from;
        }
        assert(chars@.skip(k as int).drop_first() =~= chars@.skip(k + 1));
        left -= columns;
        k += 1;
    }
    k - from
}

/// Where the line that starts at `from` ends and where the next one starts.
fn find_line_break(chars: &Vec<char>, from: usize, width: usize) -> (r: (usize, usize))
    requires
        from < chars@.len(),
        fitting(chars@.skip(from as int), width as nat) < chars@.len() - from,
    ensures
        (r.0 - from, r.1 - from) == line_break(chars@.skip(from as int), width as nat),
        from < r.0 <= r.1 <= chars@.len(),
{
    let ghost s = chars@.skip(from as int);
    let n: usize = chars.len();
    let k = count_fitting(chars, from, width);
    proof {
        lemma_line_break(s, width as nat);
    }
    let mut space: usize = k;
    while space > 0 && chars[from + space] != ' '
        invariant
            0 <= space <= k,
            from + k < n == chars@.len(),
            s == chars@.skip(from as int),
            last_space(s, k as int) == last_space(s, space as int),
        decreases space,
    {
        space -= 1;
    }
    if space == 0 {
        return if k > 0 {
            (from + k, from + k)
        } else {
            (from + 1, from + 1)
        };
    }
    let end: usize = from + space;
    let mut next: usize = end;
    while next < chars.len() && chars[next] == ' '
        invariant
            from < end <= next <= chars@.len(),
            s == chars@.skip(from as int),
            after_spaces(s, end - from) == after_spaces(s, next - from),
        decreases chars@.len() - next,
    {
        next += 1;
    }
    (end, next)
}

/// Wrap `text` into lines of at most `width` cells, at spaces where possible.
pub fn wrap_text(text: &str, width: usize) -> (r: Vec<String>)
    ensures
        texts(r@) == wrapped(text@, width as nat),
{
    let chars = chars_of(text);
    let mut lines: Vec<String> = Vec::new();
    let mut from: usize = 0;
    assert(chars@.skip(0) =~= chars@);
    assert(texts(lines@) + wrapped(text@, width as nat) =~= wrapped(text@, width as nat));
    loop
        invariant
            0 <= from <= chars@.len(),
            wrapped(text@, width as nat) == texts(lines@) + wrapped(
                chars@.skip(from as int),
                width as nat,
            ),
        decreases chars@.len() - from,
    {
        let ghost s = chars@.skip(from as int);
        let ghost before = texts(lines@);
        if count_fitting(&chars, from, width) >= chars.len() - from {
            lines.push(text_between(&chars, from, chars.len()));
            assert(chars@.subrange(from as int, chars@.len() as int) =~= s);
            assert(texts(lines@) =~= before + seq![s]);
            return lines;
        }
        let (end, next) = find_line_break(&chars, from, width);
        lines.push(text_between(&chars, from, end));
        assert(chars@.subrange(from as int, end as int) =~= s.take(end - from));
        assert(texts(lines@) =~= before + seq![s.take(end - from)]);
        if next >= chars.len() {
            return lines;
        }
        proof {
            assert(s.skip(next - from) =~= chars@.skip(next as int));
            assert(wrapped(text@, width as nat) =~= texts(lines@) + wrapped(
                chars@.skip(next as int),
                width as nat,
            ));
        }
        from = next;
    }
}

/// No line is wider than asked for, unless it is a single character that alone
/// is too wide.
pub proof fn law_wrapped_lines_fit(s: Seq<char>, width: nat)
    ensures
        wrapped(s, width).len() > 0,
        forall|i: int|
            0 <= i < wrapped(s, width).len() ==> text_cells(#[trigger] wrapped(s, width)[i])
                <= width || wrapped(s, width)[i].len() == 1,
    decreases s.len(),
{
    if fitting(s, width) >= s.len() {
        lemma_fitting(s, width, s.len() as int);
        assert(s.take(s.len() as int) =~= s);
    } else {
        lemma_line_break(s, width);
        let (end, next) = line_break(s, width);
        if next < s.len() {
            law_wrapped_lines_fit(s.skip(next), width);
            let rest = wrapped(s.skip(next), width);
            assert forall|i: int| 0 <= i < wrapped(s, width).len() implies text_cells(
                #[trigger] wrapped(s, width)[i],
            ) <= width || wrapped(s, width)[i].len() == 1 by {
                if i > 0 {
                    assert(wrapped(s, width)[i] == rest[i - 1]);
                }
            }
        }
    }
}

/// `s` without its spaces.
pub open spec fn without_spaces(s: Seq<char>) -> Seq<char>
    decreases s.len(),
{
    if s.len() == 0 {
        s
    } else if s.last() == ' ' {
        without_spaces(s.drop_last())
    } else {
        without_spaces(s.drop_last()).push(s.last())
    }
}

/// The lines one after the other.
pub open spec fn joined(lines: Seq<Seq<char>>) -> Seq<char>
    decreases lines.len(),
{
    if lines.len() == 0 {
        Seq::empty()
    } else {
        lines[0] + joined(lines.drop_first())
    }
}

/// Taking spaces out commutes with concatenation.
proof fn lemma_without_spaces_concat(a: Seq<char>, b: Seq<char>)
    ensures
        without_spaces(a + b) == without_spaces(a) + without_spaces(b),
    decreases b.len(),
{
    if b.len() == 0 {
        assert(a + b =~= a);
        assert(without_spaces(a) + without_spaces(b) =~= without_spaces(a));
    } else {
        lemma_without_spaces_concat(a, b.drop_last());
        assert((a + b).drop_last() =~= a + b.drop_last());
        assert(without_spaces(a + b) =~= without_spaces(a) + without_spaces(b));
    }
}

/// Nothing is left of spaces.
proof fn lemma_only_spaces(s: Seq<char>)
    requires
        forall|i: int| 0 <= i < s.len() ==> s[i] == ' ',
    ensures
        without_spaces(s) == Seq::<char>::empty(),
    decreases s.len(),
{
    if s.len() > 0 {
        lemma_only_spaces(s.drop_last());
    } else {
        assert(s =~= Seq::empty());
    }
}

/// Wrapping loses nothing but spaces and adds nothing: the lines together hold
/// the characters of the text, in order.
pub proof fn law_wrapping_keeps_the_text(s: Seq<char>, width: nat)
    ensures
        without_spaces(joined(wrapped(s, width))) == without_spaces(s),
    decreases s.len(),
{
    let lines = wrapped(s, width);
    if fitting(s, width) >= s.len() {
        assert(lines.drop_first() =~= Seq::empty());
        assert(joined(lines.drop_first()) =~= Seq::empty());
        assert(joined(lines) =~= s);
    } else {
        lemma_line_break(s, width);
        let (end, next) = line_break(s, width);
        let gap = s.subrange(end, next);
        lemma_only_spaces(gap);
        lemma_without_spaces_concat(s.take(end), gap);
        lemma_without_spaces_concat(s.take(next), s.skip(next));
        assert(s.take(end) + gap =~= s.take(next));
        assert(s.take(next) + s.skip(next) =~= s);
        assert(without_spaces(s.take(next)) =~= without_spaces(s.take(end)));
        if next < s.len() {
            let rest = wrapped(s.skip(next), width);
            law_wrapping_keeps_the_text(s.skip(next), width);
            assert(lines.drop_first() =~= rest);
            lemma_without_spaces_concat(s.take(end), joined(rest));
        } else {
            assert(lines.drop_first() =~= Seq::empty());
            assert(joined(lines.drop_first()) =~= Seq::empty());
            assert(joined(lines) =~= s.take(end));
            assert(s.skip(next) =~= Seq::empty());
            assert(without_spaces(s.skip(next)) =~= Seq::empty());
            assert(without_spaces(s) =~= without_spaces(s.take(end)));
        }
    }
}

// ---------- alignment ----------

/// How many of `n` spare cells go before and after the text.
pub open spec fn padding(alignment: Alignment, n: nat) -> (nat, nat) {
    match alignment {
        Alignment::Right => (n, 0),
        Alignment::Center => (n / 2, (n - n / 2) as nat),
        _ => (0, n),
    }
}

/// The cells that a text of `used` cells leaves of `width`.
pub open spec fn spare(width: nat, used: nat) -> nat {
    if used < width {
        (width - used) as nat
    } else {
        0
    }
}

/// `s` with spaces around it up to `width` cells.
pub open spec fn aligned(s: Seq<char>, width: nat, alignment: Alignment) -> Seq<char> {
    let (lead, trail) = padding(alignment, spare(width, text_cells(s)));
    repeated(' ', lead) + s + repeated(' ', trail)
}

/// Aligned text fills the width exactly, unless the text alone is wider.
pub proof fn law_aligned_text_fills_the_width(s: Seq<char>, width: nat, alignment: Alignment)
    ensures
        text_cells(aligned(s, width, alignment)) == text_cells(s) + spare(width, text_cells(s)),
{
    let (lead, trail) = padding(alignment, spare(width, text_cells(s)));
    lemma_single_cells(repeated(' ', lead));
    lemma_single_cells(repeated(' ', trail));
    lemma_text_cells_concat(repeated(' ', lead), s);
    lemma_text_cells_concat(repeated(' ', lead) + s, repeated(' ', trail));
}

/// How many of `n` spare cells go before and after the text.
pub fn split_padding(alignment: &Alignment, n: usize) -> (r: (usize, usize))
    ensures
        (r.0 as nat, r.1 as nat) == padding(*alignment, n as nat),
{
    match alignment {
        Alignment::Right => (n, 0),
        Alignment::Center => {
            let half: usize = n / 2;
            (half, n - half)
        },
        _ => (0, n),
    }
}

/// Pad `text` with spaces up to `width` cells; text that is wider stays as it
/// is.
pub fn align_text(text: &str, width: usize, alignment: &Alignment) -> (r: String)
    ensures
        r@ == aligned(text@, width as nat, *alignment),
{
    let used = terminal_width(text);
    let (lead, trail) = split_padding(alignment, width.saturating_sub(used));
    let mut r = String::new();
    push_repeated(&mut r, ' ', lead);
    r.push_str(text);
    push_repeated(&mut r, ' ', trail);
    assert(r@ =~= aligned(text@, width as nat, *alignment));
    r
}

} // verus!
