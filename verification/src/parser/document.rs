//! Document model for markdown files: the content, its headings, and the
//! sections that the headings cut the content into.
//!
//! Positions are byte offsets into the content. A section starts after its
//! heading and ends at the next heading at the same or a shallower level.
use crate::parser::forest::{build_forest, find_at_most, is_forest, lemma_next_at_most, subtree_end};
use crate::parser::heading::{Heading, HeadingNode};
use crate::parser::lines::{
    count_lines, count_newlines, find_line_start, lemma_line_of_later, line_of, line_start_from,
    newlines, total_lines,
};
use crate::text::{
    ascii_lowered, contains_text, first_from, has_text, lemma_first_from, lowercase, trimmed,
    NEWLINE,
};
use std::collections::HashMap;
use vstd::prelude::*;
use vstd::utf8::{
    decode_utf8, encode_utf8, encode_utf8_decode_utf8, encode_utf8_valid_utf8, is_ascii_chars,
    is_char_boundary, is_char_boundary_iff_not_is_continuation_byte,
    is_char_boundary_start_end_of_seq, length_of_first_scalar, pop_first_scalar, valid_utf8,
    valid_utf8_split,
};

verus! {

broadcast use vstd::std_specs::hash::group_hash_axioms;

/// A markdown document with its content and structure.
///
/// Contains the original markdown content and a list of extracted headings.
#[derive(Debug)]
pub struct Document {
    pub content: String,
    pub headings: Vec<Heading>,
    /// Lowercased heading text, parallel to `headings`. Used for
    /// case-insensitive search without re-allocating per comparison.
    pub heading_text_lc: SearchKeys,
}

/// The lowercased texts that the headings of a document are searched by.
#[derive(Debug)]
pub struct SearchKeys {
    keys: Vec<String>,
}

impl SearchKeys {
    /// The keys, in heading order.
    pub closed spec fn view(&self) -> Seq<Seq<char>> {
        self.keys@.map_values(|s: String| s@)
    }
}

/// What looking a section up by its heading text gives.
#[derive(Debug)]
pub enum SectionLookup {
    /// No heading has this text.
    Missing,
    /// The heading is there, but its offsets do not delimit a part of the
    /// content.
    Misplaced,
    /// The text of the section.
    Found(String),
}

// ---------- positions ----------

/// The end of the heading construct, no further than the end of the content.
pub open spec fn heading_end(h: Heading, len: int) -> int {
    if h.offset + h.source_len <= len {
        h.offset + h.source_len
    } else {
        len
    }
}

/// Where the body below heading `idx` starts: after the heading construct, at
/// the start of a line.
pub open spec fn body_start_at(b: Seq<u8>, hs: Seq<Heading>, idx: int) -> int {
    line_start_from(b, heading_end(hs[idx], b.len() as int))
}

/// Where section `idx` ends: at the next heading at the same or a shallower
/// level, or at the end of the content.
pub open spec fn section_end_at(len: int, hs: Seq<Heading>, idx: int) -> int {
    let next = subtree_end(hs, idx, hs.len() as int);
    if next < hs.len() {
        hs[next].offset as int
    } else {
        len
    }
}

/// Where section `idx` ends if its subsections are left out: at the very next
/// heading, or at the end of the content.
pub open spec fn own_end_at(len: int, hs: Seq<Heading>, idx: int) -> int {
    if 0 <= idx + 1 < hs.len() {
        hs[idx + 1].offset as int
    } else {
        len
    }
}

/// The end of heading `idx` can be computed, and where it lies within the
/// content it splits no character.
pub open spec fn is_heading_placed(b: Seq<u8>, hs: Seq<Heading>, idx: int) -> bool {
    &&& hs[idx].offset + hs[idx].source_len <= usize::MAX
    &&& hs[idx].offset + hs[idx].source_len < b.len() ==> is_char_boundary(
        b,
        hs[idx].offset + hs[idx].source_len,
    )
}

/// The offsets delimit section `idx` within the content, splitting no
/// character.
pub open spec fn is_section_placed(b: Seq<u8>, hs: Seq<Heading>, idx: int) -> bool {
    &&& is_heading_placed(b, hs, idx)
    &&& body_start_at(b, hs, idx) <= section_end_at(b.len() as int, hs, idx) <= b.len()
    &&& is_char_boundary(b, section_end_at(b.len() as int, hs, idx))
}

/// The text of section `idx`, without the white space around it.
pub open spec fn section_text(b: Seq<u8>, hs: Seq<Heading>, idx: int) -> Seq<char> {
    trimmed(
        decode_utf8(
            b.subrange(body_start_at(b, hs, idx), section_end_at(b.len() as int, hs, idx)),
        ),
    )
}

// ---------- lines ----------

/// The line on which heading `idx` stands.
pub open spec fn start_line(b: Seq<u8>, hs: Seq<Heading>, idx: int) -> nat {
    line_of(b, hs[idx].offset as int)
}

/// The last line of section `idx`: the line before the next heading at the same
/// or a shallower level, or the last line of the content.
pub open spec fn end_line(b: Seq<u8>, hs: Seq<Heading>, idx: int) -> nat {
    let next = subtree_end(hs, idx, hs.len() as int);
    if next < hs.len() {
        (start_line(b, hs, next) - 1) as nat
    } else {
        total_lines(b)
    }
}

/// The first and last line of the first `count` headings, by byte offset. Where
/// two headings have the same offset, the later one counts.
pub open spec fn line_ranges(b: Seq<u8>, hs: Seq<Heading>, count: nat) -> Map<
    usize,
    (usize, usize),
>
    decreases count,
{
    if count == 0 {
        Map::empty()
    } else {
        line_ranges(b, hs, (count - 1) as nat).insert(
            hs[count - 1].offset,
            (
                start_line(b, hs, count - 1) as usize,
                end_line(b, hs, count - 1) as usize,
            ),
        )
    }
}

/// The headings come in the order of their offsets, each within the content and
/// on a character boundary.
pub open spec fn is_in_order(b: Seq<u8>, hs: Seq<Heading>) -> bool {
    &&& forall|i: int, j: int|
        0 <= i <= j < hs.len() ==> (#[trigger] hs[i]).offset <= (#[trigger] hs[j]).offset
    &&& forall|i: int|
        0 <= i < hs.len() ==> (#[trigger] hs[i]).offset <= b.len() && is_char_boundary(
            b,
            hs[i].offset as int,
        )
}

// ---------- search ----------

/// The first position from `from` on of `key` among the keys, or the number of
/// keys.
pub open spec fn position_from(keys: Seq<Seq<char>>, key: Seq<char>, from: int) -> int
    decreases keys.len() - from,
{
    if from >= keys.len() {
        keys.len() as int
    } else if keys[from] == key {
        from
    } else {
        position_from(keys, key, from + 1)
    }
}

/// The position of the first key that equals `key`, or the number of keys.
pub open spec fn position_of(keys: Seq<Seq<char>>, key: Seq<char>) -> int {
    position_from(keys, key, 0)
}

/// The position found holds the key, and no earlier one does.
pub proof fn lemma_position_from(keys: Seq<Seq<char>>, key: Seq<char>, from: int)
    requires
        0 <= from <= keys.len(),
    ensures
        from <= position_from(keys, key, from) <= keys.len(),
        position_from(keys, key, from) < keys.len() ==> keys[position_from(keys, key, from)]
            == key,
        forall|i: int| from <= i < position_from(keys, key, from) ==> #[trigger] keys[i] != key,
    decreases keys.len() - from,
{
    if from < keys.len() && keys[from] != key {
        lemma_position_from(keys, key, from + 1);
    }
}

/// Of the first `count` headings, those whose search key contains `part`.
pub open spec fn headings_with(
    hs: Seq<Heading>,
    keys: Seq<Seq<char>>,
    part: Seq<char>,
    count: nat,
) -> Seq<Heading>
    decreases count,
{
    if count == 0 {
        Seq::empty()
    } else {
        let before = headings_with(hs, keys, part, (count - 1) as nat);
        if contains_text(keys[count - 1], part) {
            before.push(hs[count - 1])
        } else {
            before
        }
    }
}

/// The number of pairs that `a` items on one side and `b` on the other make.
pub open spec fn paired(a: nat, b: nat) -> nat {
    if a < b {
        a
    } else {
        b
    }
}

/// The headings that the references point to.
pub open spec fn pointed_to(refs: Seq<&Heading>) -> Seq<Heading> {
    refs.map_values(|h: &Heading| *h)
}

impl Clone for SearchKeys {
    fn clone(&self) -> (r: Self)
        ensures
            r@ == self@,
    {
        let r = SearchKeys { keys: self.keys.clone() };
        assert(r@ =~= self@);
        r
    }
}

impl Clone for Document {
    fn clone(&self) -> (r: Self)
        ensures
            r.content == self.content,
            r.headings@ == self.headings@,
            r.search_keys() == self.search_keys(),
    {
        let r = Document {
            content: self.content.clone(),
            headings: self.headings.clone(),
            heading_text_lc: self.heading_text_lc.clone(),
        };
        assert(r.headings@ =~= self.headings@);
        r
    }
}

impl Document {
    /// The content in UTF-8.
    pub open spec fn bytes(&self) -> Seq<u8> {
        encode_utf8(self.content@)
    }

    /// What the headings are searched by, in heading order.
    pub open spec fn search_keys(&self) -> Seq<Seq<char>> {
        self.heading_text_lc@
    }

    /// Position `at` has both a search key and a heading. Headings that are added
    /// later have no search key; headings that are taken away leave theirs.
    pub open spec fn is_known(&self, at: int) -> bool {
        0 <= at < paired(self.headings@.len(), self.search_keys().len())
    }

    pub fn new(content: String, headings: Vec<Heading>) -> (r: Self)
        ensures
            r.content == content,
            r.headings == headings,
            r.search_keys().len() == headings@.len(),
            forall|i: int|
                0 <= i < headings@.len() ==> #[trigger] r.search_keys()[i] == lowercase(
                    headings@[i].text@,
                ),
            forall|i: int|
                0 <= i < headings@.len() && is_ascii_chars(headings@[i].text@)
                    ==> #[trigger] r.search_keys()[i] == ascii_lowered(headings@[i].text@),
    {
        let mut keys: Vec<String> = Vec::new();
        let mut i: usize = 0;
        while i < headings.len()
            invariant
                0 <= i <= headings@.len(),
                keys@.len() == i,
                forall|j: int|
                    0 <= j < i ==> (#[trigger] keys@[j])@ == lowercase(
                        headings@[j].text@,
                    ),
                forall|j: int|
                    0 <= j < i && is_ascii_chars(headings@[j].text@) ==> (
                    #[trigger] keys@[j])@ == ascii_lowered(headings@[j].text@),
            decreases headings@.len() - i,
        {
            keys.push(headings[i].text.as_str().to_lowercase());
            i += 1;
        }
        Document { content, headings, heading_text_lc: SearchKeys { keys } }
    }

    /// Build a hierarchical tree from the flat heading list.
    pub fn build_tree(&self) -> (r: Vec<HeadingNode>)
        ensures
            is_forest(r@, self.headings@, 0, self.headings@.len() as int),
    {
        build_forest(&self.headings)
    }

    /// Get headings at a specific level
    pub fn headings_at_level(&self, level: usize) -> (r: Vec<&Heading>)
        ensures
            pointed_to(r@) == self.headings@.filter(|h: Heading| h.level == level),
            forall|k: int| 0 <= k < r@.len() ==> (#[trigger] r@[k]).level == level,
            forall|i: int|
                0 <= i < self.headings@.len() && (#[trigger] self.headings@[i]).level == level
                    ==> pointed_to(r@).contains(self.headings@[i]),
    {
        let ghost at_level = |h: Heading| h.level == level;
        let mut r: Vec<&Heading> = Vec::new();
        let mut i: usize = 0;
        while i < self.headings.len()
            invariant
                0 <= i <= self.headings@.len(),
                at_level == (|h: Heading| h.level == level),
                pointed_to(r@) == self.headings@.take(i as int).filter(at_level),
            decreases self.headings@.len() - i,
        {
            let ghost so_far = r@;
            if self.headings[i].level == level {
                r.push(&self.headings[i]);
            }
            i += 1;
            proof {
                let longer = self.headings@.take(i as int);
                assert(longer.drop_last() =~= self.headings@.take(i - 1));
                reveal(Seq::filter);
                assert(pointed_to(r@) =~= longer.filter(at_level));
            }
        }
        proof {
            assert(self.headings@.take(i as int) =~= self.headings@);
            broadcast use vstd::seq_lib::group_filter_ensures;

            assert forall|k: int| 0 <= k < r@.len() implies (#[trigger] r@[k]).level == level by {
                assert(at_level(pointed_to(r@)[k]));
            }
            assert forall|k: int|
                0 <= k < self.headings@.len() && (#[trigger] self.headings@[k]).level
                    == level implies pointed_to(r@).contains(self.headings@[k]) by {
                assert(at_level(self.headings@[k]));
            }
        }
        r
    }

    /// The position of the first heading with this text (case-insensitive).
    fn position(&self, text: &str) -> (r: Option<usize>)
        ensures
            r matches Some(i) ==> i == position_of(self.search_keys(), lowercase(text@)) && i
                < self.search_keys().len(),
            r is None ==> position_of(self.search_keys(), lowercase(text@))
                == self.search_keys().len(),
            is_ascii_chars(text@) ==> lowercase(text@) == ascii_lowered(text@),
    {
        let search = text.to_lowercase();
        let mut i: usize = 0;
        while i < self.heading_text_lc.keys.len()
            invariant
                0 <= i <= self.heading_text_lc.keys@.len(),
                search@ == lowercase(text@),
                is_ascii_chars(text@) ==> lowercase(text@) == ascii_lowered(text@),
                position_of(self.search_keys(), search@) == position_from(
                    self.search_keys(),
                    search@,
                    i as int,
                ),
            decreases self.heading_text_lc.keys@.len() - i,
        {
            assert(self.search_keys()[i as int] == self.heading_text_lc.keys@[i as int]@);
            if self.heading_text_lc.keys[i] == search {
                return Some(i);
            }
            i += 1;
        }
        None
    }

    /// Find heading by text (case-insensitive)
    pub fn find_heading(&self, text: &str) -> (r: Option<&Heading>)
        requires
            ({
                let at = position_of(self.search_keys(), lowercase(text@));
                at < self.search_keys().len() ==> at < self.headings@.len()
            }),
        ensures
            ({
                let at = position_of(self.search_keys(), lowercase(text@));
                if at < self.search_keys().len() {
                    r == Some(&self.headings@[at])
                } else {
                    r is None
                }
            }),
            is_ascii_chars(text@) ==> lowercase(text@) == ascii_lowered(text@),
    {
        match self.position(text) {
            Some(i) => Some(&self.headings[i]),
            None => None,
        }
    }

    /// Find heading by text (case-insensitive), whatever became of the headings:
    /// nothing is found where the heading was taken away.
    pub fn lookup_heading(&self, text: &str) -> (r: Option<&Heading>)
        ensures
            ({
                let at = position_of(self.search_keys(), lowercase(text@));
                if self.is_known(at) {
                    r == Some(&self.headings@[at])
                } else {
                    r is None
                }
            }),
            is_ascii_chars(text@) ==> lowercase(text@) == ascii_lowered(text@),
    {
        match self.position(text) {
            Some(i) => if i < self.headings.len() {
                self.find_heading(text)
            } else {
                None
            },
            None => None,
        }
    }

    /// Get all headings matching a filter
    pub fn filter_headings(&self, filter: &str) -> (r: Vec<&Heading>)
        ensures
            pointed_to(r@) == headings_with(
                self.headings@,
                self.search_keys(),
                lowercase(filter@),
                paired(self.headings@.len(), self.search_keys().len()),
            ),
            is_ascii_chars(filter@) ==> lowercase(filter@) == ascii_lowered(filter@),
    {
        let search = filter.to_lowercase();
        let mut r: Vec<&Heading> = Vec::new();
        let mut i: usize = 0;
        while i < self.headings.len() && i < self.heading_text_lc.keys.len()
            invariant
                0 <= i <= paired(self.headings@.len(), self.search_keys().len()),
                search@ == lowercase(filter@),
                is_ascii_chars(filter@) ==> lowercase(filter@) == ascii_lowered(filter@),
                pointed_to(r@) == headings_with(
                    self.headings@,
                    self.search_keys(),
                    search@,
                    i as nat,
                ),
            decreases self.headings@.len() - i,
        {
            assert(self.search_keys()[i as int] == self.heading_text_lc.keys@[i as int]@);
            if has_text(self.heading_text_lc.keys[i].as_str(), search.as_str()) {
                r.push(&self.headings[i]);
            }
            i += 1;
            assert(pointed_to(r@) =~= headings_with(
                self.headings@,
                self.search_keys(),
                search@,
                i as nat,
            ));
        }
        r
    }

    /// Byte offset where the body of section `idx` begins, i.e. the first byte
    /// after the heading construct, normalized to the start of the next line.
    ///
    /// The parser reports `offset + source_len` already pointing at the start of
    /// the body in the common case. Moving on past the next line feed is a
    /// safety net for the rare case where the reported range stops before the
    /// terminator; it never crosses into the next line's text.
    pub fn body_start(&self, idx: usize) -> (r: usize)
        requires
            idx < self.headings@.len(),
            is_heading_placed(self.bytes(), self.headings@, idx as int),
        ensures
            r == body_start_at(self.bytes(), self.headings@, idx as int),
    {
        let bytes = self.content.as_str().as_bytes();
        let len: usize = bytes.len();
        let reported: usize = self.headings[idx].offset + self.headings[idx].source_len;
        let after: usize = if reported < len {
            reported
        } else {
            len
        };
        find_line_start(bytes, after)
    }

    /// Byte offset where section `idx` ends: the offset of the next heading at a
    /// level less than or equal to this heading's level, or end of content.
    ///
    /// Used for "section" extraction where deeper subsections stay within the
    /// parent.
    pub fn section_end(&self, idx: usize) -> (r: usize)
        requires
            idx < self.headings@.len(),
        ensures
            r == section_end_at(self.bytes().len() as int, self.headings@, idx as int),
    {
        let n: usize = self.headings.len();
        let next = find_at_most(&self.headings, idx + 1, self.headings[idx].level);
        if next < n {
            self.headings[next].offset
        } else {
            self.content.as_str().as_bytes().len()
        }
    }

    /// Byte offset where section `idx` ends when bounding at *any* following
    /// heading (regardless of level). Used where child sections are emitted
    /// separately, so the parent's own body must stop at the very next heading.
    pub fn section_end_any(&self, idx: usize) -> (r: usize)
        requires
            idx < usize::MAX,
        ensures
            r == own_end_at(self.bytes().len() as int, self.headings@, idx as int),
    {
        if idx + 1 < self.headings.len() {
            self.headings[idx + 1].offset
        } else {
            self.content.as_str().as_bytes().len()
        }
    }

    /// Extract the content of a section by heading index.
    pub fn extract_section_at_index(&self, heading_idx: usize) -> (r: Option<String>)
        requires
            heading_idx < self.headings@.len() ==> is_section_placed(
                self.bytes(),
                self.headings@,
                heading_idx as int,
            ),
        ensures
            r is Some <==> heading_idx < self.headings@.len(),
            r matches Some(text) ==> text@ == section_text(
                self.bytes(),
                self.headings@,
                heading_idx as int,
            ),
    {
        if heading_idx >= self.headings.len() {
            return None;
        }
        let start = self.body_start(heading_idx);
        let end = self.section_end(heading_idx);
        let ghost b = self.bytes();
        proof {
            encode_utf8_valid_utf8(self.content@);
            lemma_body_start_boundary(b, self.headings@, heading_idx as int);
            valid_utf8_split(b, end as int);
        }
        let (upto, _) = self.content.as_str().split_at(end);
        proof {
            lemma_boundary_in_prefix(b, start as int, end as int);
        }
        let (_, body) = upto.split_at(start);
        proof {
            let part = b.subrange(start as int, end as int);
            assert(encode_utf8(upto@).subrange(start as int, end as int) =~= part);
            encode_utf8_decode_utf8(body@);
            assert(body@ == decode_utf8(part));
        }
        Some(body.trim().to_owned())
    }

    /// Extract the content of a section by heading text.
    ///
    /// Uses stored byte offsets for fast, accurate extraction without string searching.
    pub fn extract_section(&self, heading_text: &str) -> (r: Option<String>)
        requires
            ({
                let at = position_of(self.search_keys(), lowercase(heading_text@));
                self.is_known(at) ==> is_section_placed(self.bytes(), self.headings@, at)
            }),
        ensures
            ({
                let at = position_of(self.search_keys(), lowercase(heading_text@));
                &&& r is Some <==> self.is_known(at)
                &&& r matches Some(text) ==> text@ == section_text(
                    self.bytes(),
                    self.headings@,
                    at,
                )
            }),
            is_ascii_chars(heading_text@) ==> lowercase(heading_text@) == ascii_lowered(
                heading_text@,
            ),
    {
        match self.position(heading_text) {
            Some(i) => self.extract_section_at_index(i),
            None => None,
        }
    }

    /// Whether the offsets delimit section `idx` within the content.
    pub fn has_section_placed(&self, idx: usize) -> (r: bool)
        requires
            idx < self.headings@.len(),
        ensures
            r == is_section_placed(self.bytes(), self.headings@, idx as int),
    {
        let content = self.content.as_str();
        let len: usize = content.as_bytes().len();
        let heading = &self.headings[idx];
        if heading.source_len > usize::MAX - heading.offset {
            return false;
        }
        let reported: usize = heading.offset + heading.source_len;
        if reported < len && !content.is_char_boundary(reported) {
            return false;
        }
        let start = self.body_start(idx);
        let end = self.section_end(idx);
        start <= end && end <= len && content.is_char_boundary(end)
    }

    /// Extract the content of a section by heading text, whatever the offsets.
    pub fn lookup_section(&self, heading_text: &str) -> (r: SectionLookup)
        ensures
            ({
                let at = position_of(self.search_keys(), lowercase(heading_text@));
                match r {
                    SectionLookup::Missing => !self.is_known(at),
                    SectionLookup::Misplaced => self.is_known(at) && !is_section_placed(
                        self.bytes(),
                        self.headings@,
                        at,
                    ),
                    SectionLookup::Found(text) => self.is_known(at) && is_section_placed(
                        self.bytes(),
                        self.headings@,
                        at,
                    ) && text@ == section_text(self.bytes(), self.headings@, at),
                }
            }),
            is_ascii_chars(heading_text@) ==> lowercase(heading_text@) == ascii_lowered(
                heading_text@,
            ),
    {
        match self.position(heading_text) {
            None => SectionLookup::Missing,
            Some(i) => if i >= self.headings.len() {
                SectionLookup::Missing
            } else if !self.has_section_placed(i) {
                SectionLookup::Misplaced
            } else {
                match self.extract_section(heading_text) {
                    Some(text) => SectionLookup::Found(text),
                    None => SectionLookup::Missing,
                }
            },
        }
    }

    /// Compute the 1-indexed `(start_line, end_line)` for every heading,
    /// keyed by that heading's byte offset (unique per heading).
    ///
    /// `start_line` is the line the heading itself sits on. `end_line` is
    /// the last line before the next heading at the same or a shallower
    /// level - the same "subtree" boundary `section_end` uses for byte
    /// offsets - or the document's last line when no such heading follows.
    pub fn heading_line_ranges(&self) -> (r: HashMap<usize, (usize, usize)>)
        requires
            is_in_order(self.bytes(), self.headings@),
            newlines(self.bytes()) < usize::MAX,
        ensures
            r@ == line_ranges(self.bytes(), self.headings@, self.headings@.len()),
    {
        let ghost b = self.bytes();
        let ghost hs = self.headings@;
        let bytes = self.content.as_str().as_bytes();
        let n: usize = self.headings.len();

        // Count line feeds between consecutive heading offsets rather than from
        // the start of the document for each heading.
        let mut start_lines: Vec<usize> = Vec::with_capacity(n);
        let mut prev_line: usize = 1;
        let mut prev_offset: usize = 0;
        let mut i: usize = 0;
        assert(b.take(0) =~= Seq::<u8>::empty());
        while i < n
            invariant
                0 <= i <= n,
                n == hs.len(),
                hs == self.headings@,
                bytes@ == b,
                is_in_order(b, hs),
                newlines(b) < usize::MAX,
                prev_offset <= b.len(),
                i < n ==> prev_offset <= hs[i as int].offset,
                prev_line == line_of(b, prev_offset as int),
                start_lines@.len() == i,
                forall|j: int| 0 <= j < i ==> #[trigger] start_lines@[j] == start_line(b, hs, j),
            decreases n - i,
        {
            let offset: usize = self.headings[i].offset;
            proof {
                lemma_line_of_later(b, prev_offset as int, offset as int);
                if i + 1 < n {
                    assert(hs[i as int].offset <= hs[i + 1].offset);
                }
            }
            let line: usize = prev_line + count_newlines(bytes, prev_offset, offset);
            start_lines.push(line);
            prev_line = line;
            prev_offset = offset;
            i += 1;
        }

        let lines: usize = count_lines(bytes);
        let mut ranges: HashMap<usize, (usize, usize)> = HashMap::with_capacity(n);
        let mut idx: usize = 0;
        assert(ranges@ =~= line_ranges(b, hs, 0));
        while idx < n
            invariant
                0 <= idx <= n,
                n == hs.len(),
                hs == self.headings@,
                lines == total_lines(b),
                start_lines@.len() == n,
                forall|j: int| 0 <= j < n ==> #[trigger] start_lines@[j] == start_line(b, hs, j),
                ranges@ == line_ranges(b, hs, idx as nat),
            decreases n - idx,
        {
            let next = find_at_most(&self.headings, idx + 1, self.headings[idx].level);
            proof {
                lemma_next_at_most(hs, idx + 1, n as int, hs[idx as int].level);
            }
            let end: usize = if next < n {
                start_lines[next] - 1
            } else {
                lines
            };
            ranges.insert(self.headings[idx].offset, (start_lines[idx], end));
            idx += 1;
        }
        ranges
    }
}

/// The body starts on a character boundary.
pub proof fn lemma_body_start_boundary(b: Seq<u8>, hs: Seq<Heading>, idx: int)
    requires
        valid_utf8(b),
        0 <= idx < hs.len(),
        is_heading_placed(b, hs, idx),
    ensures
        0 <= body_start_at(b, hs, idx) <= b.len(),
        is_char_boundary(b, body_start_at(b, hs, idx)),
{
    let at = heading_end(hs[idx], b.len() as int);
    is_char_boundary_start_end_of_seq(b);
    lemma_first_from(b, at, |x: u8| x == NEWLINE);
    let feed = first_from(b, at, |x: u8| x == NEWLINE);
    if feed < b.len() {
        lemma_boundary_after_newline(b, feed);
    }
}

/// The position after a line feed is a character boundary.
pub proof fn lemma_boundary_after_newline(b: Seq<u8>, at: int)
    requires
        valid_utf8(b),
        0 <= at < b.len(),
        b[at] == NEWLINE,
    ensures
        is_char_boundary(b, at + 1),
    decreases b.len(),
{
    is_char_boundary_start_end_of_seq(b);
    if at + 1 < b.len() {
        let first = length_of_first_scalar(b);
        if at == 0 {
            reveal_with_fuel(is_char_boundary, 3);
        } else {
            is_char_boundary_iff_not_is_continuation_byte(b, at);
            let rest = pop_first_scalar(b);
            if at >= first {
                lemma_boundary_after_newline(rest, at - first);
            }
        }
    }
}

/// A character boundary before another one stays a boundary in the prefix that
/// ends there.
pub proof fn lemma_boundary_in_prefix(b: Seq<u8>, at: int, end: int)
    requires
        valid_utf8(b),
        0 <= at <= end <= b.len(),
        is_char_boundary(b, at),
        is_char_boundary(b, end),
    ensures
        is_char_boundary(b.subrange(0, end), at),
{
    valid_utf8_split(b, end);
    let prefix = b.subrange(0, end);
    is_char_boundary_start_end_of_seq(prefix);
    if at < end {
        is_char_boundary_iff_not_is_continuation_byte(b, at);
        is_char_boundary_iff_not_is_continuation_byte(prefix, at);
    }
}

} // verus!
