//! What sections, line ranges and searches mean in terms of the content and the
//! headings alone.
use crate::parser::document::{
    body_start_at, headings_with, is_in_order, is_section_placed, lemma_body_start_boundary,
    lemma_boundary_in_prefix, lemma_position_from, line_ranges, own_end_at, paired, position_of,
    section_end_at, section_text, Document,
};
use crate::parser::forest::lemma_next_at_most;
use crate::parser::heading::Heading;
use crate::parser::laws::{law_every_heading_has_its_range, lemma_filter_keeps};
use crate::parser::lines::{
    law_bytes_have_the_lines_of_the_text, law_number_of_lines, line_feeds, newlines, text_lines,
};
use crate::text::{
    contains_text, is_white_space, lemma_first_from, occurs_at, trim_end, trim_start, NEWLINE,
};
use vstd::prelude::*;
use vstd::utf8::{
    decode_utf8, decode_utf8_encode_utf8, encode_utf8, is_char_boundary,
    is_char_boundary_start_end_of_seq, valid_utf8, valid_utf8_split,
};

verus! {

// ---------- where sections start and end ----------

/// A line of the content starts at `p`.
pub open spec fn is_line_start(b: Seq<u8>, p: int) -> bool {
    p == 0 || b[p - 1] == 10
}

/// The body of a section starts at the first start of a line that lies at or
/// after the end of the heading construct, or at the end of the content where no
/// line starts any more.
pub proof fn law_body_starts_at_the_next_line_start(b: Seq<u8>, hs: Seq<Heading>, i: int)
    requires
        0 <= i < hs.len(),
        hs[i].offset + hs[i].source_len <= b.len(),
    ensures
        hs[i].offset + hs[i].source_len <= body_start_at(b, hs, i) <= b.len(),
        body_start_at(b, hs, i) < b.len() ==> is_line_start(b, body_start_at(b, hs, i)),
        forall|p: int|
            hs[i].offset + hs[i].source_len <= p < body_start_at(b, hs, i) ==> !#[trigger]
                is_line_start(b, p),
{
    let at = hs[i].offset + hs[i].source_len;
    let is_feed = |x: u8| x == NEWLINE;
    lemma_first_from(b, at, is_feed);
    let start = body_start_at(b, hs, i);
    assert forall|p: int| at <= p < start implies !#[trigger] is_line_start(b, p) by {
        if p > at {
            assert(!is_feed(b[p - 1]));
        }
    }
}

/// A heading construct that is reported beyond the end of the content leaves no
/// body.
pub proof fn law_body_of_an_overlong_heading_is_empty(b: Seq<u8>, hs: Seq<Heading>, i: int)
    requires
        0 <= i < hs.len(),
        hs[i].offset + hs[i].source_len >= b.len(),
    ensures
        body_start_at(b, hs, i) == b.len(),
{
}

/// A section ends at heading `j` if that is the first one after it at the same
/// or a shallower level.
pub proof fn law_section_ends_at_the_next_heading(len: int, hs: Seq<Heading>, i: int, j: int)
    requires
        0 <= i < j < hs.len(),
        hs[j].level <= hs[i].level,
        forall|m: int| i < m < j ==> (#[trigger] hs[m]).level > hs[i].level,
    ensures
        section_end_at(len, hs, i) == hs[j].offset,
{
    lemma_next_at_most(hs, i + 1, hs.len() as int, hs[i].level);
}

/// A section that only deeper headings follow ends with the content.
pub proof fn law_last_section_ends_with_the_content(len: int, hs: Seq<Heading>, i: int)
    requires
        0 <= i < hs.len(),
        forall|m: int| i < m < hs.len() ==> (#[trigger] hs[m]).level > hs[i].level,
    ensures
        section_end_at(len, hs, i) == len,
{
    lemma_next_at_most(hs, i + 1, hs.len() as int, hs[i].level);
}

/// Without its subsections, a section ends at the heading right after its own,
/// or with the content.
pub proof fn law_own_text_ends_at_any_heading(len: int, hs: Seq<Heading>, i: int)
    requires
        0 <= i,
    ensures
        i + 1 < hs.len() ==> own_end_at(len, hs, i) == hs[i + 1].offset,
        i + 1 >= hs.len() ==> own_end_at(len, hs, i) == len,
{
}

/// A section can be extracted just where its heading construct ends at a
/// countable position, which splits no character if it lies within the content,
/// and the section ends after its body starts, within the content and again
/// without splitting a character.
pub proof fn law_sections_that_can_be_extracted(b: Seq<u8>, hs: Seq<Heading>, i: int)
    requires
        valid_utf8(b),
        0 <= i < hs.len(),
    ensures
        is_section_placed(b, hs, i) <==> {
            let end = section_end_at(b.len() as int, hs, i);
            let reported = hs[i].offset + hs[i].source_len;
            &&& reported <= usize::MAX
            &&& reported >= b.len() || is_char_boundary(b, reported)
            &&& body_start_at(b, hs, i) <= end <= b.len()
            &&& end == b.len() || is_char_boundary(b, end)
        },
{
    is_char_boundary_start_end_of_seq(b);
}

// ---------- the text of a section ----------

/// Nothing but white space.
pub open spec fn is_blank(text: Seq<char>) -> bool {
    forall|k: int| 0 <= k < text.len() ==> is_white_space(#[trigger] text[k])
}

/// `text` is `whole` but for white space in front of it and behind it, and has
/// none left at its ends.
pub open spec fn is_trimmed_from(whole: Seq<char>, text: Seq<char>) -> bool {
    &&& exists|lead: Seq<char>, trail: Seq<char>|
        is_blank(lead) && is_blank(trail) && whole == #[trigger] (lead + text + trail)
    &&& text.len() > 0 ==> !is_white_space(text[0]) && !is_white_space(text[text.len() - 1])
}

proof fn lemma_trim_start(s: Seq<char>) -> (lead: Seq<char>)
    ensures
        is_blank(lead),
        s == lead + trim_start(s),
        trim_start(s).len() > 0 ==> !is_white_space(trim_start(s)[0]),
    decreases s.len(),
{
    if s.len() > 0 && is_white_space(s[0]) {
        let rest = lemma_trim_start(s.drop_first());
        let lead = seq![s[0]] + rest;
        assert(s =~= seq![s[0]] + s.drop_first());
        assert(s =~= lead + trim_start(s));
        assert forall|k: int| 0 <= k < lead.len() implies is_white_space(#[trigger] lead[k]) by {
            if k > 0 {
                assert(lead[k] == rest[k - 1]);
            }
        }
        lead
    } else {
        assert(s =~= Seq::<char>::empty() + s);
        Seq::empty()
    }
}

proof fn lemma_trim_end(s: Seq<char>) -> (trail: Seq<char>)
    ensures
        is_blank(trail),
        s == trim_end(s) + trail,
        trim_end(s).len() > 0 ==> !is_white_space(trim_end(s).last()) && trim_end(s)[0] == s[0],
    decreases s.len(),
{
    if s.len() > 0 && is_white_space(s.last()) {
        let rest = lemma_trim_end(s.drop_last());
        let trail = rest.push(s.last());
        assert(s =~= s.drop_last().push(s.last()));
        assert(s =~= trim_end(s) + trail);
        assert forall|k: int| 0 <= k < trail.len() implies is_white_space(#[trigger] trail[k]) by {
            if k < rest.len() {
                assert(trail[k] == rest[k]);
            }
        }
        trail
    } else {
        assert(s =~= s + Seq::<char>::empty());
        Seq::empty()
    }
}

/// Extraction loses nothing but white space at the ends: the text of a section
/// is what the content holds from the start of the body to the end of the
/// section, without the white space around it.
pub proof fn law_section_text_is_the_whole_body(
    b: Seq<u8>,
    hs: Seq<Heading>,
    i: int,
) -> (whole: Seq<char>)
    requires
        valid_utf8(b),
        0 <= i < hs.len(),
        is_section_placed(b, hs, i),
    ensures
        encode_utf8(whole) == b.subrange(
            body_start_at(b, hs, i),
            section_end_at(b.len() as int, hs, i),
        ),
        is_trimmed_from(whole, section_text(b, hs, i)),
{
    let start = body_start_at(b, hs, i);
    let end = section_end_at(b.len() as int, hs, i);
    let body = b.subrange(start, end);
    lemma_body_start_boundary(b, hs, i);
    lemma_boundary_in_prefix(b, start, end);
    valid_utf8_split(b, end);
    valid_utf8_split(b.subrange(0, end), start);
    assert(b.subrange(0, end).subrange(start, end) =~= body);
    decode_utf8_encode_utf8(body);
    let whole = decode_utf8(body);
    let text = section_text(b, hs, i);
    let lead = lemma_trim_start(whole);
    let trail = lemma_trim_end(trim_start(whole));
    assert(whole =~= lead + text + trail);
    whole
}

// ---------- line ranges ----------

/// A line range starts on the line of its heading: one more than the line feeds
/// in the text `before` it, and the line after the lines of `before` where the
/// heading starts a line.
pub proof fn law_line_ranges_start_at_their_headings(
    b: Seq<u8>,
    hs: Seq<Heading>,
    i: int,
    before: Seq<char>,
)
    requires
        is_in_order(b, hs),
        newlines(b) < usize::MAX,
        forall|k: int| i < k < hs.len() ==> (#[trigger] hs[k]).offset != hs[i].offset,
        0 <= i < hs.len(),
        encode_utf8(before) == b.take(hs[i].offset as int),
    ensures
        line_ranges(b, hs, hs.len()).contains_key(hs[i].offset),
        line_ranges(b, hs, hs.len())[hs[i].offset].0 == line_feeds(before) + 1,
        before.len() == 0 || before.last() == '\n' ==> line_ranges(b, hs, hs.len())[hs[i].offset].0
            == text_lines(before).len() + 1,
{
    law_every_heading_has_its_range(b, hs, i);
    law_bytes_have_the_lines_of_the_text(before);
    law_number_of_lines(before);
}

/// There is a line range for the headings and for nothing else.
pub proof fn law_only_headings_have_ranges(b: Seq<u8>, hs: Seq<Heading>, count: nat, offset: usize)
    requires
        count <= hs.len(),
        line_ranges(b, hs, count).contains_key(offset),
    ensures
        exists|i: int| 0 <= i < count && (#[trigger] hs[i]).offset == offset,
    decreases count,
{
    if count > 0 {
        if hs[count - 1].offset != offset {
            law_only_headings_have_ranges(b, hs, (count - 1) as nat, offset);
        }
    }
}

// ---------- search ----------

/// The heading that is found is the first one whose key is the one searched for;
/// none is found only where there is none.
pub proof fn law_search_finds_the_first(keys: Seq<Seq<char>>, key: Seq<char>)
    ensures
        0 <= position_of(keys, key) <= keys.len(),
        position_of(keys, key) < keys.len() ==> keys[position_of(keys, key)] == key,
        forall|i: int| 0 <= i < position_of(keys, key) ==> #[trigger] keys[i] != key,
        keys.contains(key) ==> position_of(keys, key) < keys.len(),
{
    lemma_position_from(keys, key, 0);
}

/// A text contains what stands somewhere in it, and nothing else.
pub proof fn law_contained_text_stands_in_the_text(hay: Seq<char>, part: Seq<char>)
    ensures
        contains_text(hay, part) <==> exists|before: Seq<char>, after: Seq<char>|
            hay == #[trigger] (before + part + after),
{
    if contains_text(hay, part) {
        let at = choose|at: int| occurs_at(hay, part, at);
        let before = hay.take(at);
        let after = hay.skip(at + part.len());
        assert(hay =~= before + part + after);
    }
    if exists|before: Seq<char>, after: Seq<char>| hay == #[trigger] (before + part + after) {
        let (before, after) = choose|before: Seq<char>, after: Seq<char>|
            hay == #[trigger] (before + part + after);
        let at = before.len() as int;
        assert(hay.subrange(at, at + part.len()) =~= part);
        assert(occurs_at(hay, part, at));
    }
}

/// `kept` are the positions, in order, of the keys that contain `part`.
pub open spec fn are_matches(
    keys: Seq<Seq<char>>,
    part: Seq<char>,
    count: int,
    kept: Seq<int>,
) -> bool {
    &&& forall|k: int, l: int| 0 <= k < l < kept.len() ==> #[trigger] kept[k] < #[trigger] kept[l]
    &&& forall|i: int| #[trigger]
        kept.contains(i) <==> 0 <= i < count && contains_text(keys[i], part)
}

/// A filter keeps exactly the headings whose key contains it, in their order.
pub proof fn law_filter_keeps_the_matches(
    hs: Seq<Heading>,
    keys: Seq<Seq<char>>,
    part: Seq<char>,
    count: nat,
) -> (kept: Seq<int>)
    requires
        count <= hs.len(),
        count <= keys.len(),
    ensures
        are_matches(keys, part, count as int, kept),
        headings_with(hs, keys, part, count) == kept.map_values(|i: int| hs[i]),
    decreases count,
{
    if count == 0 {
        let kept = Seq::<int>::empty();
        assert(headings_with(hs, keys, part, count) =~= kept.map_values(|i: int| hs[i]));
        kept
    } else {
        let n = count - 1;
        let before = law_filter_keeps_the_matches(hs, keys, part, n as nat);
        if contains_text(keys[n], part) {
            let kept = before.push(n);
            assert forall|k: int, l: int| 0 <= k < l < kept.len() implies #[trigger] kept[k]
                < #[trigger] kept[l] by {
                assert(before.contains(before[k]));
            }
            assert forall|i: int| #[trigger] kept.contains(i) <==> 0 <= i < count
                && contains_text(keys[i], part) by {
                if before.contains(i) {
                    let k = choose|k: int| 0 <= k < before.len() && before[k] == i;
                    assert(kept[k] == i);
                }
                if i == n {
                    assert(kept[before.len() as int] == n);
                }
                if kept.contains(i) && i != n {
                    let k = choose|k: int| 0 <= k < kept.len() && kept[k] == i;
                    assert(before[k] == i);
                    assert(before.contains(i));
                }
            }
            assert(headings_with(hs, keys, part, count) =~= kept.map_values(|i: int| hs[i]));
            kept
        } else {
            assert forall|i: int| #[trigger] before.contains(i) <==> 0 <= i < count
                && contains_text(keys[i], part) by {}
            before
        }
    }
}

/// A filter reaches every heading that has a search key, up to the last one, and
/// no other; so does a search.
pub proof fn law_every_heading_with_a_key_is_searched(document: Document, i: int, part: Seq<char>)
    requires
        0 <= i < document.headings@.len(),
        i < document.search_keys().len(),
        contains_text(document.search_keys()[i], part),
    ensures
        headings_with(
            document.headings@,
            document.search_keys(),
            part,
            paired(document.headings@.len(), document.search_keys().len()),
        ).contains(document.headings@[i]),
        document.is_known(i),
        forall|at: int|
            #![trigger document.is_known(at)]
            at < 0 || at >= document.headings@.len() || at >= document.search_keys().len()
                ==> !document.is_known(at),
{
    lemma_filter_keeps(
        document.headings@,
        document.search_keys(),
        part,
        i,
        paired(document.headings@.len(), document.search_keys().len()),
    );
}

} // verus!
