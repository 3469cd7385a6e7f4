//! Lines of a text: counted on its UTF-8 bytes, and split by characters.
//!
//! In UTF-8 the byte of the line feed occurs nowhere but as the line feed, so
//! lines can be counted without decoding.
use crate::text::{first_from, lemma_first_from, lemma_first_from_unique, NEWLINE};
use vstd::prelude::*;
use vstd::utf8::{encode_scalar, encode_utf8, has_width_1_encoding};

verus! {

/// The number of line feeds in `b`.
pub open spec fn newlines(b: Seq<u8>) -> nat
    decreases b.len(),
{
    if b.len() == 0 {
        0
    } else {
        newlines(b.drop_last()) + if b.last() == NEWLINE {
            1nat
        } else {
            0nat
        }
    }
}

/// The line, counted from one, on which the byte at `offset` stands.
pub open spec fn line_of(b: Seq<u8>, offset: int) -> nat {
    1 + newlines(b.take(offset))
}

/// The number of lines of `b`: one for each line feed, and one more for text
/// after the last of them.
pub open spec fn total_lines(b: Seq<u8>) -> nat {
    newlines(b) + if b.len() > 0 && b.last() != NEWLINE {
        1nat
    } else {
        0nat
    }
}

/// The start of the line at `at`, if `at` is one, or else of the next line: the
/// position after the first line feed from `at` on, or the end of `b`.
pub open spec fn line_start_from(b: Seq<u8>, at: int) -> int {
    if at >= b.len() {
        b.len() as int
    } else if at <= 0 || b[at - 1] == NEWLINE {
        at
    } else {
        let feed = first_from(b, at, |x: u8| x == NEWLINE);
        if feed < b.len() {
            feed + 1
        } else {
            b.len() as int
        }
    }
}

/// Line feeds add up over concatenation.
pub proof fn lemma_newlines_concat(a: Seq<u8>, b: Seq<u8>)
    ensures
        newlines(a + b) == newlines(a) + newlines(b),
    decreases b.len(),
{
    if b.len() == 0 {
        assert(a + b =~= a);
    } else {
        lemma_newlines_concat(a, b.drop_last());
        assert((a + b).drop_last() =~= a + b.drop_last());
    }
}

/// A text has at most as many line feeds as bytes.
pub proof fn lemma_newlines_bound(b: Seq<u8>)
    ensures
        newlines(b) <= b.len(),
    decreases b.len(),
{
    if b.len() > 0 {
        lemma_newlines_bound(b.drop_last());
    }
}

/// A later position stands on the same or a later line, and the line feeds
/// between the two make the difference.
pub proof fn lemma_line_of_later(b: Seq<u8>, from: int, to: int)
    requires
        0 <= from <= to <= b.len(),
    ensures
        line_of(b, to) == line_of(b, from) + newlines(b.subrange(from, to)),
        newlines(b.take(to)) <= newlines(b),
{
    lemma_newlines_concat(b.take(from), b.subrange(from, to));
    assert(b.take(from) + b.subrange(from, to) =~= b.take(to));
    lemma_newlines_concat(b.take(to), b.skip(to));
    assert(b.take(to) + b.skip(to) =~= b);
}

/// The number of line feeds in `b` from `from` to `to`.
pub fn count_newlines(b: &[u8], from: usize, to: usize) -> (r: usize)
    requires
        from <= to <= b@.len(),
    ensures
        r == newlines(b@.subrange(from as int, to as int)),
{
    let mut r: usize = 0;
    let mut i: usize = from;
    while i < to
        invariant
            from <= i <= to <= b@.len(),
            r == newlines(b@.subrange(from as int, i as int)),
            r <= i - from,
        decreases to - i,
    {
        proof {
            let longer = b@.subrange(from as int, i + 1);
            assert(longer.drop_last() =~= b@.subrange(from as int, i as int));
        }
        if b[i] == NEWLINE {
            r += 1;
        }
        i += 1;
    }
    r
}

/// The number of lines of `b`.
pub fn count_lines(b: &[u8]) -> (r: usize)
    ensures
        r == total_lines(b@),
{
    let n: usize = b.len();
    let feeds = count_newlines(b, 0, n);
    proof {
        assert(b@.subrange(0, n as int) =~= b@);
        if n > 0 {
            lemma_newlines_bound(b@.drop_last());
        }
    }
    if n > 0 && b[n - 1] != NEWLINE {
        feeds + 1
    } else {
        feeds
    }
}

/// The start of the line at `at`, or of the next line.
pub fn find_line_start(b: &[u8], at: usize) -> (r: usize)
    ensures
        r == line_start_from(b@, at as int),
{
    let n: usize = b.len();
    if at >= n {
        return n;
    }
    if at == 0 || b[at - 1] == NEWLINE {
        return at;
    }
    let ghost is_feed = |x: u8| x == NEWLINE;
    let mut i: usize = at;
    while i < n && b[i] != NEWLINE
        invariant
            at <= i <= n,
            n == b@.len(),
            forall|j: int| at <= j < i ==> b@[j] != NEWLINE,
        decreases n - i,
    {
        i += 1;
    }
    proof {
        lemma_first_from_unique(b@, at as int, is_feed, i as int);
    }
    if i < n {
        i + 1
    } else {
        n
    }
}

/// `line_start_from` gives the start of a line, at or after `at`, and at most
/// the line feed just before it lies in between.
pub proof fn law_line_start(b: Seq<u8>, at: int)
    requires
        0 <= at <= b.len(),
    ensures
        at <= line_start_from(b, at) <= b.len(),
        line_start_from(b, at) == 0 || line_start_from(b, at) == b.len() || b[line_start_from(b, at)
            - 1] == NEWLINE,
        forall|i: int| at <= i < line_start_from(b, at) - 1 ==> b[i] != NEWLINE,
{
    lemma_first_from(b, at, |x: u8| x == NEWLINE);
}

/// The number of line feeds among the characters of a text.
pub open spec fn line_feeds(text: Seq<char>) -> nat
    decreases text.len(),
{
    if text.len() == 0 {
        0
    } else {
        line_feeds(text.drop_last()) + if text.last() == '\n' {
            1nat
        } else {
            0nat
        }
    }
}

/// Line feeds add up over concatenation.
pub proof fn lemma_line_feeds_concat(a: Seq<char>, b: Seq<char>)
    ensures
        line_feeds(a + b) == line_feeds(a) + line_feeds(b),
    decreases b.len(),
{
    if b.len() == 0 {
        assert(a + b =~= a);
    } else {
        lemma_line_feeds_concat(a, b.drop_last());
        assert((a + b).drop_last() =~= a + b.drop_last());
    }
}

/// A text that does not contain the line feed has none.
pub proof fn lemma_no_line_feeds(text: Seq<char>)
    requires
        !text.contains('\n'),
    ensures
        line_feeds(text) == 0,
    decreases text.len(),
{
    if text.len() > 0 {
        assert(text.contains(text.last()));
        assert forall|i: int| 0 <= i < text.drop_last().len() implies text.drop_last()[i]
            != '\n' by {
            assert(text.contains(text[i]));
        }
        lemma_no_line_feeds(text.drop_last());
    }
}

/// The bytes of a character hold the byte of the line feed, and then nothing
/// else, just where the character is the line feed.
proof fn lemma_bytes_of_char(ch: char)
    ensures
        encode_scalar(ch as u32).len() > 0,
        ch == '\n' ==> encode_scalar(ch as u32) == seq![NEWLINE],
        ch != '\n' ==> forall|i: int|
            0 <= i < encode_scalar(ch as u32).len() ==> #[trigger] encode_scalar(ch as u32)[i]
                != NEWLINE,
{
    let c = ch as u32;
    if has_width_1_encoding(c) {
        assert(c <= 0x7f ==> (c & 0x7f) as u8 == c) by (bit_vector);
    } else {
        let last = (c & 0x3f) as u8;
        let second = ((c >> 6) & 0x3f) as u8;
        let third = ((c >> 12) & 0x3f) as u8;
        let lead_2 = ((c >> 6) & 0x1f) as u8;
        let lead_3 = ((c >> 12) & 0x0f) as u8;
        let lead_4 = ((c >> 18) & 0x7) as u8;
        assert(0x80u8 | last >= 0x80) by (bit_vector);
        assert(0x80u8 | second >= 0x80) by (bit_vector);
        assert(0x80u8 | third >= 0x80) by (bit_vector);
        assert(0xc0u8 | lead_2 >= 0x80) by (bit_vector);
        assert(0xe0u8 | lead_3 >= 0x80) by (bit_vector);
        assert(0xf0u8 | lead_4 >= 0x80) by (bit_vector);
    }
}

proof fn lemma_newlines_of_char(ch: char)
    ensures
        newlines(encode_scalar(ch as u32)) == if ch == '\n' {
            1nat
        } else {
            0nat
        },
{
    lemma_bytes_of_char(ch);
    if ch == '\n' {
        reveal_with_fuel(newlines, 2);
    } else {
        lemma_no_newlines(encode_scalar(ch as u32));
    }
}

proof fn lemma_no_newlines(b: Seq<u8>)
    requires
        forall|i: int| 0 <= i < b.len() ==> b[i] != NEWLINE,
    ensures
        newlines(b) == 0,
    decreases b.len(),
{
    if b.len() > 0 {
        lemma_no_newlines(b.drop_last());
    }
}

/// Counting line feeds in the bytes of a text or in its characters is the same.
pub proof fn law_bytes_have_the_lines_of_the_text(text: Seq<char>)
    ensures
        newlines(encode_utf8(text)) == line_feeds(text),
    decreases text.len(),
{
    if text.len() > 0 {
        let first = text.take(1);
        let rest = text.drop_first();
        law_bytes_have_the_lines_of_the_text(rest);
        let c = text[0];
        lemma_newlines_of_char(c);
        lemma_newlines_concat(encode_scalar(c as u32), encode_utf8(rest));
        lemma_line_feeds_concat(first, rest);
        assert(text =~= first + rest);
        assert(line_feeds(first.drop_last()) == 0);
        assert(first.last() == c);
    }
}

// ---------- the lines themselves ----------

/// The length of the first line of `s`, its line ending with it.
pub open spec fn first_line_end(s: Seq<char>) -> int {
    let at = first_from(s, 0, |c: char| c == '\n');
    if at < s.len() {
        at + 1
    } else {
        s.len() as int
    }
}

/// The lines of `s`, each with its line ending; only the last may lack one, and
/// none is empty.
pub open spec fn lines_with_endings(s: Seq<char>) -> Seq<Seq<char>>
    decreases s.len(),
{
    if s.len() == 0 {
        Seq::empty()
    } else {
        let end = first_line_end(s);
        if 0 < end <= s.len() {
            seq![s.take(end)] + lines_with_endings(s.skip(end))
        } else {
            Seq::empty()
        }
    }
}

/// The lines put together again.
pub open spec fn joined_lines(lines: Seq<Seq<char>>) -> Seq<char>
    decreases lines.len(),
{
    if lines.len() == 0 {
        Seq::empty()
    } else {
        lines[0] + joined_lines(lines.skip(1))
    }
}

/// Splitting into lines loses nothing, and leaves a line feed only at the end of
/// a line; every line but the last has one there.
pub proof fn law_lines_with_endings(s: Seq<char>)
    ensures
        joined_lines(lines_with_endings(s)) == s,
        forall|i: int|
            0 <= i < lines_with_endings(s).len() ==> (#[trigger] lines_with_endings(s)[i]).len() > 0
                && !lines_with_endings(s)[i].drop_last().contains('\n') && (i + 1 < lines_with_endings(s).len()
                ==> lines_with_endings(s)[i].last() == '\n'),
    decreases s.len(),
{
    let lines = lines_with_endings(s);
    if s.len() > 0 {
        let is_end = |c: char| c == '\n';
        lemma_first_from(s, 0, is_end);
        let end = first_line_end(s);
        let rest = s.skip(end);
        law_lines_with_endings(rest);
        assert(lines.skip(1) =~= lines_with_endings(rest));
        assert(s =~= s.take(end) + rest);
        assert forall|i: int| 0 <= i < lines.len() implies (#[trigger] lines[i]).len() > 0
            && !lines[i].drop_last().contains('\n') && (i + 1 < lines.len() ==> lines[i].last()
            == '\n') by {
            if i == 0 {
                let body = s.take(end).drop_last();
                assert forall|j: int| 0 <= j < body.len() implies body[j] != '\n' by {
                    assert(!is_end(s[j]));
                }
                if lines.len() > 1 {
                    assert(rest.len() > 0);
                    assert(is_end(s[end - 1]));
                }
            } else {
                assert(lines[i] == lines_with_endings(rest)[i - 1]);
            }
        }
    }
}

/// A line without its line ending, which is a line feed or a carriage return and
/// a line feed.
pub open spec fn line_body(line: Seq<char>) -> Seq<char> {
    if line.len() > 0 && line.last() == '\n' {
        let body = line.drop_last();
        if body.len() > 0 && body.last() == '\r' {
            body.drop_last()
        } else {
            body
        }
    } else {
        line
    }
}

/// The lines of `s` without their line endings.
pub open spec fn text_lines(s: Seq<char>) -> Seq<Seq<char>> {
    lines_with_endings(s).map_values(|line: Seq<char>| line_body(line))
}

/// `s` ends where a line ends.
pub open spec fn ends_a_line(s: Seq<char>) -> bool {
    s.len() == 0 || s.last() == '\n'
}

/// A text that follows a whole number of lines adds its own lines.
pub proof fn lemma_lines_concat(a: Seq<char>, b: Seq<char>)
    requires
        ends_a_line(a),
    ensures
        lines_with_endings(a + b) == lines_with_endings(a) + lines_with_endings(b),
    decreases a.len(),
{
    if a.len() == 0 {
        assert(a + b =~= b);
        assert(lines_with_endings(a) + lines_with_endings(b) =~= lines_with_endings(b));
    } else {
        let is_end = |c: char| c == '\n';
        let at = first_from(a, 0, is_end);
        lemma_first_from(a, 0, is_end);
        if at >= a.len() {
            assert(!is_end(a[a.len() - 1]));
        }
        let s = a + b;
        assert forall|i: int| 0 <= i < at implies !is_end(#[trigger] s[i]) by {
            assert(!is_end(a[i]));
        }
        assert(is_end(s[at]));
        lemma_first_from_unique(s, 0, is_end, at);
        let rest = a.skip(at + 1);
        lemma_lines_concat(rest, b);
        assert(s.take(at + 1) =~= a.take(at + 1));
        assert(s.skip(at + 1) =~= rest + b);
        assert(lines_with_endings(s) =~= lines_with_endings(a) + lines_with_endings(b));
    }
}

/// Text with a line feed at its end, if anywhere, is one line.
pub proof fn lemma_one_line(line: Seq<char>)
    requires
        line.len() > 0,
        !line.drop_last().contains('\n'),
    ensures
        lines_with_endings(line) == seq![line],
{
    let is_end = |c: char| c == '\n';
    let n = line.len() as int;
    let at = if is_end(line[n - 1]) {
        n - 1
    } else {
        n
    };
    assert forall|i: int| 0 <= i < at implies !is_end(#[trigger] line[i]) by {
        if i < n - 1 {
            assert(line.drop_last()[i] == line[i]);
        }
    }
    lemma_first_from_unique(line, 0, is_end, at);
    assert(line.take(n) =~= line);
    assert(line.skip(n) =~= Seq::empty());
    assert(lines_with_endings(line.skip(n)) =~= Seq::empty());
    assert(lines_with_endings(line) =~= seq![line]);
}

/// There is a line for each line feed, and one more for text after the last of
/// them.
pub proof fn law_number_of_lines(s: Seq<char>)
    ensures
        text_lines(s).len() == line_feeds(s) + if ends_a_line(s) {
            0nat
        } else {
            1nat
        },
    decreases s.len(),
{
    if s.len() > 0 {
        let is_end = |c: char| c == '\n';
        lemma_first_from(s, 0, is_end);
        let end = first_line_end(s);
        let line = s.take(end);
        let rest = s.skip(end);
        law_number_of_lines(rest);
        lemma_line_feeds_concat(line, rest);
        assert(s =~= line + rest);
        let body = line.drop_last();
        assert forall|i: int| 0 <= i < body.len() implies body[i] != '\n' by {
            assert(!is_end(s[i]));
        }
        lemma_no_line_feeds(body);
        if end < s.len() || s.last() == '\n' {
            assert(is_end(s[end - 1])) by {
                if first_from(s, 0, is_end) >= s.len() {
                    assert(!is_end(s[s.len() - 1]));
                }
            }
        }
    }
}

/// The last byte of a text is the line feed just where its last character is.
proof fn lemma_last_byte(s: Seq<char>)
    ensures
        s.len() > 0 ==> encode_utf8(s).len() > 0,
        s.len() > 0 ==> (encode_utf8(s).last() == NEWLINE <==> s.last() == '\n'),
        s.len() == 0 ==> encode_utf8(s).len() == 0,
    decreases s.len(),
{
    if s.len() > 0 {
        let rest = s.drop_first();
        let c = s[0];
        let first = encode_scalar(c as u32);
        lemma_last_byte(rest);
        assert(encode_utf8(s) == first + encode_utf8(rest));
        if rest.len() == 0 {
            assert(encode_utf8(s) =~= first);
            lemma_bytes_of_char(c);
        } else {
            assert(encode_utf8(s).last() == encode_utf8(rest).last());
        }
    }
}

/// The lines of the bytes of a text are the lines of the text.
pub proof fn law_bytes_have_as_many_lines(s: Seq<char>)
    ensures
        total_lines(encode_utf8(s)) == text_lines(s).len(),
{
    law_number_of_lines(s);
    law_bytes_have_the_lines_of_the_text(s);
    lemma_last_byte(s);
}

} // verus!
