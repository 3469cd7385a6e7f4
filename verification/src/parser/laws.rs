//! What holds of every document, and of every document whose headings lie where
//! a parser reports them.
use crate::parser::document::{
    body_start_at, end_line, heading_end, headings_with, is_in_order, is_section_placed,
    lemma_boundary_after_newline, lemma_position_from, line_ranges, own_end_at, paired, position_of,
    section_end_at, start_line,
};
use crate::parser::forest::{lemma_next_at_most, subtree_end};
use crate::parser::heading::Heading;
use crate::parser::lines::{
    law_bytes_have_as_many_lines, law_line_start, lemma_line_of_later, newlines, text_lines,
    total_lines,
};
use crate::text::{
    contains_text, first_from, lemma_empty_text_occurs, lemma_first_from, occurs_at, NEWLINE,
};
use vstd::prelude::*;
use vstd::utf8::{encode_utf8, is_char_boundary, is_char_boundary_start_end_of_seq, valid_utf8};

verus! {

/// Heading `i` starts at the start of a line and its construct ends, on a
/// character boundary, within the content and no later than the next heading
/// starts.
pub open spec fn is_laid_out(b: Seq<u8>, hs: Seq<Heading>) -> bool {
    &&& forall|i: int|
        0 <= i < hs.len() ==> {
            let h = #[trigger] hs[i];
            &&& h.offset + h.source_len <= b.len() <= usize::MAX
            &&& is_char_boundary(b, h.offset + h.source_len)
            &&& h.offset == 0 || b[h.offset - 1] == NEWLINE
        }
    &&& forall|i: int, j: int|
        0 <= i < j < hs.len() ==> (#[trigger] hs[i]).offset + hs[i].source_len <= (
        #[trigger] hs[j]).offset
}

/// A body starts no later than any later heading.
proof fn lemma_body_before_later(b: Seq<u8>, hs: Seq<Heading>, i: int, j: int)
    requires
        is_laid_out(b, hs),
        0 <= i < j < hs.len(),
    ensures
        body_start_at(b, hs, i) <= hs[j].offset,
{
    let at = heading_end(hs[i], b.len() as int);
    let end = hs[j].offset as int;
    let is_feed = |x: u8| x == NEWLINE;
    assert(hs[i].offset + hs[i].source_len <= hs[j].offset);
    lemma_first_from(b, at, is_feed);
    if at < end && first_from(b, at, is_feed) > end - 1 {
        assert(!is_feed(b[end - 1]));
    }
}

/// Extraction never leaves the content: where the headings are laid out as a
/// parser reports them, every section is a part of the content that splits no
/// character, whatever the levels are.
pub proof fn law_laid_out_sections_can_be_extracted(b: Seq<u8>, hs: Seq<Heading>, i: int)
    requires
        valid_utf8(b),
        is_laid_out(b, hs),
        0 <= i < hs.len(),
    ensures
        is_section_placed(b, hs, i),
{
    let next = subtree_end(hs, i, hs.len() as int);
    lemma_next_at_most(hs, i + 1, hs.len() as int, hs[i].level);
    law_line_start(b, heading_end(hs[i], b.len() as int));
    is_char_boundary_start_end_of_seq(b);
    assert(hs[i].offset + hs[i].source_len <= b.len());
    if next < hs.len() {
        lemma_body_before_later(b, hs, i, next);
        if hs[next].offset > 0 {
            lemma_boundary_after_newline(b, hs[next].offset - 1);
        }
    }
}

/// A section holds nothing of its own heading: its body starts at the start of
/// a line, after the heading construct, and the only line feed that may lie in
/// between ends the heading's last line.
pub proof fn law_body_excludes_heading(b: Seq<u8>, hs: Seq<Heading>, i: int)
    requires
        0 <= i < hs.len(),
    ensures
        heading_end(hs[i], b.len() as int) <= body_start_at(b, hs, i) <= b.len(),
        body_start_at(b, hs, i) == 0 || body_start_at(b, hs, i) == b.len() || b[body_start_at(
            b,
            hs,
            i,
        ) - 1] == NEWLINE,
        forall|k: int|
            heading_end(hs[i], b.len() as int) <= k < body_start_at(b, hs, i) - 1 ==> b[k]
                != NEWLINE,
{
    law_line_start(b, heading_end(hs[i], b.len() as int));
}

/// The subtree boundary of a heading below another lies within the other's.
proof fn lemma_boundaries_nest(hs: Seq<Heading>, i: int, j: int)
    requires
        0 <= i < j < subtree_end(hs, i, hs.len() as int),
    ensures
        j < subtree_end(hs, j, hs.len() as int) <= subtree_end(hs, i, hs.len() as int)
            <= hs.len(),
{
    let n = hs.len() as int;
    let end = subtree_end(hs, i, n);
    if i + 1 <= n {
        lemma_next_at_most(hs, i + 1, n, hs[i].level);
    }
    lemma_next_at_most(hs, j + 1, n, hs[j].level);
    if subtree_end(hs, j, n) > end {
        assert(hs[end].level > hs[j].level);
        assert(hs[j].level > hs[i].level);
    }
}

/// Deeper subsections stay within the parent: the heading and the section of a
/// heading in the subtree of `i` lie in the body of section `i`.
pub proof fn law_subsections_nest(b: Seq<u8>, hs: Seq<Heading>, i: int, j: int)
    requires
        is_laid_out(b, hs),
        0 <= i < j < subtree_end(hs, i, hs.len() as int),
    ensures
        body_start_at(b, hs, i) <= hs[j].offset,
        hs[j].offset <= section_end_at(b.len() as int, hs, j),
        section_end_at(b.len() as int, hs, j) <= section_end_at(b.len() as int, hs, i),
{
    lemma_boundaries_nest(hs, i, j);
    lemma_body_before_later(b, hs, i, j);
    let n = hs.len() as int;
    let inner = subtree_end(hs, j, n);
    let outer = subtree_end(hs, i, n);
    if inner < n {
        assert(hs[inner].offset <= b.len());
    }
}

/// What a section holds before its first subsection is a part of it.
pub proof fn law_own_body_is_part_of_section(b: Seq<u8>, hs: Seq<Heading>, i: int)
    requires
        is_laid_out(b, hs),
        0 <= i < hs.len(),
    ensures
        body_start_at(b, hs, i) <= own_end_at(b.len() as int, hs, i) <= section_end_at(
            b.len() as int,
            hs,
            i,
        ),
{
    let n = hs.len() as int;
    lemma_next_at_most(hs, i + 1, n, hs[i].level);
    law_line_start(b, heading_end(hs[i], b.len() as int));
    if i + 1 < n {
        lemma_body_before_later(b, hs, i, i + 1);
        assert(hs[i + 1].offset <= b.len());
    }
}

/// Headings that are laid out are in order.
pub proof fn law_laid_out_is_in_order(b: Seq<u8>, hs: Seq<Heading>)
    requires
        valid_utf8(b),
        is_laid_out(b, hs),
    ensures
        is_in_order(b, hs),
{
    is_char_boundary_start_end_of_seq(b);
    assert forall|i: int| 0 <= i < hs.len() implies (#[trigger] hs[i]).offset <= b.len()
        && is_char_boundary(b, hs[i].offset as int) by {
        if hs[i].offset > 0 {
            lemma_boundary_after_newline(b, hs[i].offset - 1);
        }
    }
}

/// Line ranges follow each other without gap or overlap: the range of a heading
/// ends on the line before the next heading at the same or a shallower level
/// starts, and the last one ends with the content.
pub proof fn law_line_ranges_tile(b: Seq<u8>, hs: Seq<Heading>, i: int)
    requires
        is_in_order(b, hs),
        0 <= i < hs.len(),
    ensures
        ({
            let next = subtree_end(hs, i, hs.len() as int);
            if next < hs.len() {
                end_line(b, hs, i) + 1 == start_line(b, hs, next)
            } else {
                end_line(b, hs, i) == total_lines(b)
            }
        }),
{
}

/// A parent's line range spans the ranges of its children.
pub proof fn law_line_ranges_nest(b: Seq<u8>, hs: Seq<Heading>, i: int, j: int)
    requires
        is_in_order(b, hs),
        0 <= i < j < subtree_end(hs, i, hs.len() as int),
    ensures
        1 <= start_line(b, hs, i) <= start_line(b, hs, j),
        end_line(b, hs, j) <= end_line(b, hs, i),
{
    let n = hs.len() as int;
    lemma_boundaries_nest(hs, i, j);
    lemma_line_of_later(b, hs[i].offset as int, hs[j].offset as int);
    let inner = subtree_end(hs, j, n);
    let outer = subtree_end(hs, i, n);
    if inner < n {
        lemma_line_of_later(b, hs[inner].offset as int, b.len() as int);
        assert(b.take(b.len() as int) =~= b);
        if outer < n {
            lemma_line_of_later(b, hs[inner].offset as int, hs[outer].offset as int);
        }
    }
}

/// Later headings at other offsets do not take away the range of an earlier one.
proof fn lemma_line_ranges_keep(b: Seq<u8>, hs: Seq<Heading>, i: int, count: nat)
    requires
        0 <= i < count <= hs.len(),
        forall|k: int| i < k < hs.len() ==> (#[trigger] hs[k]).offset != hs[i].offset,
    ensures
        line_ranges(b, hs, count).contains_key(hs[i].offset),
        line_ranges(b, hs, count)[hs[i].offset] == (
            start_line(b, hs, i) as usize,
            end_line(b, hs, i) as usize,
        ),
    decreases count,
{
    if i < count - 1 {
        lemma_line_ranges_keep(b, hs, i, (count - 1) as nat);
    }
}

/// Every heading has its range: the map of line ranges gives a heading its own
/// first and last line, unless a later heading has the same offset, which then
/// counts.
pub proof fn law_every_heading_has_its_range(b: Seq<u8>, hs: Seq<Heading>, i: int)
    requires
        is_in_order(b, hs),
        newlines(b) < usize::MAX,
        forall|k: int| i < k < hs.len() ==> (#[trigger] hs[k]).offset != hs[i].offset,
        0 <= i < hs.len(),
    ensures
        ({
            let ranges = line_ranges(b, hs, hs.len());
            &&& ranges.contains_key(hs[i].offset)
            &&& ranges[hs[i].offset].0 == start_line(b, hs, i)
            &&& ranges[hs[i].offset].1 == end_line(b, hs, i)
        }),
{
    let n = hs.len() as int;
    lemma_line_ranges_keep(b, hs, i, hs.len());
    lemma_line_of_later(b, hs[i].offset as int, b.len() as int);
    assert(b.take(b.len() as int) =~= b);
    lemma_next_at_most(hs, i + 1, n, hs[i].level);
    let next = subtree_end(hs, i, n);
    if next < n {
        lemma_line_of_later(b, hs[next].offset as int, b.len() as int);
    }
}

/// Every heading starts a line of the content.
pub open spec fn starts_lines(b: Seq<u8>, hs: Seq<Heading>) -> bool {
    forall|i: int|
        0 <= i < hs.len() ==> (#[trigger] hs[i]).offset <= b.len() && (hs[i].offset == 0
            || b[hs[i].offset - 1] == NEWLINE)
}

/// A line range ends where the section ends: its last line is the last line of
/// the content up to there.
pub proof fn law_line_range_ends_with_the_section(b: Seq<u8>, hs: Seq<Heading>, i: int)
    requires
        starts_lines(b, hs),
        0 <= i < hs.len(),
    ensures
        end_line(b, hs, i) == total_lines(b.take(section_end_at(b.len() as int, hs, i))),
{
    let n = hs.len() as int;
    lemma_next_at_most(hs, i + 1, n, hs[i].level);
    let next = subtree_end(hs, i, n);
    if next < n {
        assert(hs[next].offset <= b.len());
    } else {
        assert(b.take(b.len() as int) =~= b);
    }
}

/// The map of line ranges ends each range where the section ends: with as many
/// lines as the text `before`, which is the content up to there.
pub proof fn law_line_ranges_end_with_their_sections(
    b: Seq<u8>,
    hs: Seq<Heading>,
    i: int,
    before: Seq<char>,
)
    requires
        is_in_order(b, hs),
        starts_lines(b, hs),
        newlines(b) < usize::MAX,
        forall|k: int| i < k < hs.len() ==> (#[trigger] hs[k]).offset != hs[i].offset,
        0 <= i < hs.len(),
        encode_utf8(before) == b.take(section_end_at(b.len() as int, hs, i)),
    ensures
        line_ranges(b, hs, hs.len()).contains_key(hs[i].offset),
        line_ranges(b, hs, hs.len())[hs[i].offset].1 == text_lines(before).len(),
{
    law_every_heading_has_its_range(b, hs, i);
    law_line_range_ends_with_the_section(b, hs, i);
    law_bytes_have_as_many_lines(before);
}

/// The empty filter keeps every heading.
pub proof fn law_empty_filter_keeps_all(hs: Seq<Heading>, keys: Seq<Seq<char>>, count: nat)
    requires
        count <= hs.len(),
    ensures
        headings_with(hs, keys, Seq::empty(), count) == hs.take(count as int),
    decreases count,
{
    if count == 0 {
        assert(hs.take(0) =~= Seq::empty());
    } else {
        law_empty_filter_keeps_all(hs, keys, (count - 1) as nat);
        lemma_empty_text_occurs(keys[count - 1]);
        assert(hs.take(count as int) =~= hs.take(count - 1).push(hs[count - 1]));
    }
}

/// A heading whose key contains the filter is kept.
pub proof fn lemma_filter_keeps(
    hs: Seq<Heading>,
    keys: Seq<Seq<char>>,
    part: Seq<char>,
    i: int,
    count: nat,
)
    requires
        0 <= i < count <= hs.len(),
        contains_text(keys[i], part),
    ensures
        headings_with(hs, keys, part, count).contains(hs[i]),
    decreases count,
{
    let before = headings_with(hs, keys, part, (count - 1) as nat);
    let all = headings_with(hs, keys, part, count);
    if i < count - 1 {
        lemma_filter_keeps(hs, keys, part, i, (count - 1) as nat);
        let at = choose|at: int| 0 <= at < before.len() && before[at] == hs[i];
        assert(all[at] == hs[i]);
    } else {
        assert(all.last() == hs[i]);
    }
}

/// What is found by its whole text is also kept by a filter on that text.
pub proof fn law_found_heading_passes_filter(
    hs: Seq<Heading>,
    keys: Seq<Seq<char>>,
    key: Seq<char>,
)
    requires
        position_of(keys, key) < paired(hs.len(), keys.len()),
    ensures
        headings_with(hs, keys, key, paired(hs.len(), keys.len())).contains(
            hs[position_of(keys, key)],
        ),
{
    let i = position_of(keys, key);
    lemma_position_from(keys, key, 0);
    assert(key.subrange(0, key.len() as int) =~= key);
    assert(occurs_at(keys[i], key, 0));
    lemma_filter_keeps(hs, keys, key, i, paired(hs.len(), keys.len()));
}

} // verus!
