use treemd::{Document, Heading};

fn h(level: usize, text: &str, offset: usize) -> Heading {
    Heading {
        level,
        text: text.to_string(),
        offset,
        source_len: 0,
    }
}

/// Build a heading whose `source_len` is derived from `content`: the span
/// from `offset` through the end of that line (including the newline). This
/// matches what the parser reports for ATX headings and lets the
/// extraction tests exercise the real `body_start` path.
fn h_in(content: &str, level: usize, text: &str, offset: usize) -> Heading {
    let line_end = content[offset..]
        .find('\n')
        .map(|i| offset + i + 1)
        .unwrap_or(content.len());
    Heading {
        level,
        text: text.to_string(),
        offset,
        source_len: line_end - offset,
    }
}

fn doc(content: &str, headings: Vec<Heading>) -> Document {
    Document::new(content.to_string(), headings)
}

/// A document with the headings of `content`: ATX lines (`#` to `######`) and
/// setext lines (underlined with `=` or `-`), each with the span of its
/// construct, line terminators included.
fn parse_markdown(content: &str) -> Document {
    let mut lines: Vec<(usize, &str)> = Vec::new();
    let mut at = 0;
    for line in content.split_inclusive('\n') {
        lines.push((at, line));
        at += line.len();
    }
    let mut headings = Vec::new();
    for (i, &(offset, line)) in lines.iter().enumerate() {
        let text = line.trim();
        let level = text.chars().take_while(|c| *c == '#').count();
        if (1..=6).contains(&level) && text[level..].starts_with(' ') {
            headings.push(Heading {
                level,
                text: text[level..].trim().to_string(),
                offset,
                source_len: line.len(),
            });
        } else if let Some(&(_, under)) = lines.get(i + 1) {
            let rule = under.trim();
            let setext = !text.is_empty()
                && !rule.is_empty()
                && (rule.chars().all(|c| c == '=') || rule.chars().all(|c| c == '-'));
            if setext {
                headings.push(Heading {
                    level: if rule.starts_with('=') { 1 } else { 2 },
                    text: text.to_string(),
                    offset,
                    source_len: line.len() + under.len(),
                });
            }
        }
    }
    Document::new(content.to_string(), headings)
}

// ---------- build_tree ----------

#[test]
fn build_tree_empty() {
    let d = doc("", vec![]);
    assert!(d.build_tree().is_empty());
}

#[test]
fn build_tree_single_root() {
    let d = doc("# A\n", vec![h(1, "A", 0)]);
    let tree = d.build_tree();
    assert_eq!(tree.len(), 1);
    assert_eq!(tree[0].heading.text, "A");
    assert!(tree[0].children.is_empty());
}

#[test]
fn build_tree_simple_nesting() {
    // # A
    //   ## B
    //     ### C
    //   ## D
    let d = doc(
        "",
        vec![h(1, "A", 0), h(2, "B", 1), h(3, "C", 2), h(2, "D", 3)],
    );
    let tree = d.build_tree();
    assert_eq!(tree.len(), 1);
    assert_eq!(tree[0].heading.text, "A");
    assert_eq!(tree[0].children.len(), 2);
    assert_eq!(tree[0].children[0].heading.text, "B");
    assert_eq!(tree[0].children[0].children.len(), 1);
    assert_eq!(tree[0].children[0].children[0].heading.text, "C");
    assert_eq!(tree[0].children[1].heading.text, "D");
    assert!(tree[0].children[1].children.is_empty());
}

#[test]
fn build_tree_multiple_roots() {
    let d = doc(
        "",
        vec![h(1, "A", 0), h(2, "A1", 1), h(1, "B", 2), h(2, "B1", 3)],
    );
    let tree = d.build_tree();
    assert_eq!(tree.len(), 2);
    assert_eq!(tree[0].heading.text, "A");
    assert_eq!(tree[0].children.len(), 1);
    assert_eq!(tree[0].children[0].heading.text, "A1");
    assert_eq!(tree[1].heading.text, "B");
    assert_eq!(tree[1].children.len(), 1);
    assert_eq!(tree[1].children[0].heading.text, "B1");
}

#[test]
fn build_tree_skipped_levels() {
    // # A
    //     ### C   (skips level 2 — should still nest under A)
    let d = doc("", vec![h(1, "A", 0), h(3, "C", 1)]);
    let tree = d.build_tree();
    assert_eq!(tree.len(), 1);
    assert_eq!(tree[0].children.len(), 1);
    assert_eq!(tree[0].children[0].heading.text, "C");
    assert_eq!(tree[0].children[0].heading.level, 3);
}

#[test]
fn build_tree_jump_back_to_root() {
    // ### deep
    // # root  (jumps back; should be a sibling root, not a child)
    let d = doc("", vec![h(3, "deep", 0), h(1, "root", 1)]);
    let tree = d.build_tree();
    assert_eq!(tree.len(), 2);
    assert_eq!(tree[0].heading.text, "deep");
    assert_eq!(tree[1].heading.text, "root");
    assert!(tree[1].children.is_empty());
}

#[test]
fn build_tree_same_level_siblings() {
    let d = doc(
        "",
        vec![h(2, "A", 0), h(2, "B", 1), h(2, "C", 2), h(3, "C1", 3)],
    );
    let tree = d.build_tree();
    assert_eq!(tree.len(), 3);
    assert!(tree[0].children.is_empty());
    assert!(tree[1].children.is_empty());
    assert_eq!(tree[2].children.len(), 1);
    assert_eq!(tree[2].children[0].heading.text, "C1");
}

#[test]
fn build_tree_deep_chain() {
    // # / ## / ### / #### / ##### / ######
    let headings: Vec<Heading> = (1..=6)
        .map(|lvl| h(lvl, &format!("L{}", lvl), lvl))
        .collect();
    let d = doc("", headings);
    let tree = d.build_tree();
    let mut node = &tree[0];
    for lvl in 1..=6 {
        assert_eq!(node.heading.level, lvl);
        if lvl == 6 {
            assert!(node.children.is_empty());
        } else {
            assert_eq!(node.children.len(), 1, "expected single child at L{}", lvl);
            node = &node.children[0];
        }
    }
}

#[test]
fn build_tree_pop_to_grandparent() {
    // # A
    //   ## B
    //     ### C
    //   ## D     (pops both C and B; D is child of A)
    let d = doc(
        "",
        vec![h(1, "A", 0), h(2, "B", 1), h(3, "C", 2), h(2, "D", 3)],
    );
    let tree = d.build_tree();
    assert_eq!(tree[0].children.len(), 2);
    assert_eq!(tree[0].children[1].heading.text, "D");
}

// ---------- find_heading ----------

#[test]
fn find_heading_case_insensitive() {
    let d = doc("", vec![h(1, "Hello World", 0), h(2, "Other", 1)]);
    assert_eq!(d.find_heading("hello world").unwrap().text, "Hello World");
    assert_eq!(d.find_heading("HELLO WORLD").unwrap().text, "Hello World");
    assert_eq!(d.find_heading("Hello World").unwrap().text, "Hello World");
}

#[test]
fn find_heading_no_match() {
    let d = doc("", vec![h(1, "Foo", 0)]);
    assert!(d.find_heading("Bar").is_none());
    // Substring should NOT match (find_heading is exact equality).
    assert!(d.find_heading("Fo").is_none());
}

#[test]
fn find_heading_returns_first_on_duplicate() {
    let d = doc("", vec![h(1, "Dup", 0), h(2, "Dup", 5)]);
    let found = d.find_heading("dup").unwrap();
    assert_eq!(found.level, 1);
    assert_eq!(found.offset, 0);
}

// ---------- filter_headings ----------

#[test]
fn filter_headings_substring_case_insensitive() {
    let d = doc(
        "",
        vec![
            h(1, "Introduction", 0),
            h(2, "Setup intro", 1),
            h(2, "Conclusion", 2),
        ],
    );
    let matches: Vec<_> = d
        .filter_headings("INTRO")
        .into_iter()
        .map(|h| h.text.clone())
        .collect();
    assert_eq!(matches, vec!["Introduction", "Setup intro"]);
}

#[test]
fn filter_headings_empty_query_matches_all() {
    let d = doc("", vec![h(1, "A", 0), h(2, "B", 1)]);
    assert_eq!(d.filter_headings("").len(), 2);
}

#[test]
fn filter_headings_no_match() {
    let d = doc("", vec![h(1, "A", 0)]);
    assert!(d.filter_headings("zzz").is_empty());
}

// ---------- headings_at_level ----------

#[test]
fn headings_at_level_filters_correctly() {
    let d = doc(
        "",
        vec![h(1, "A", 0), h(2, "B", 1), h(2, "C", 2), h(3, "D", 3)],
    );
    let l2: Vec<_> = d
        .headings_at_level(2)
        .into_iter()
        .map(|h| h.text.clone())
        .collect();
    assert_eq!(l2, vec!["B", "C"]);
    assert_eq!(d.headings_at_level(99).len(), 0);
}

// ---------- extract_section ----------

#[test]
fn extract_section_case_insensitive_lookup() {
    // Both at level 1 so Alpha is bounded by Beta.
    let content = "# Alpha\nbody alpha\n\n# Beta\nbody beta\n";
    let alpha = content.find("# Alpha").unwrap();
    let beta = content.find("# Beta").unwrap();
    let d = doc(
        content,
        vec![
            h_in(content, 1, "Alpha", alpha),
            h_in(content, 1, "Beta", beta),
        ],
    );
    let section = d.extract_section("ALPHA").expect("found");
    assert!(section.contains("body alpha"));
    assert!(!section.contains("body beta"));
}

#[test]
fn extract_section_stops_at_same_or_higher_level() {
    // Section ## A ends at the next ## or # — not at deeper ###.
    let content = "# Top\nintro\n\n## A\na-body\n\n### A1\na1-body\n\n## B\nb-body\n";
    let top = content.find("# Top").unwrap();
    let a = content.find("## A").unwrap();
    let a1 = content.find("### A1").unwrap();
    let b = content.find("## B").unwrap();
    let d = doc(
        content,
        vec![
            h_in(content, 1, "Top", top),
            h_in(content, 2, "A", a),
            h_in(content, 3, "A1", a1),
            h_in(content, 2, "B", b),
        ],
    );
    let section = d.extract_section("A").expect("found");
    assert!(section.contains("a-body"));
    assert!(section.contains("A1"), "deeper subsection stays in A");
    assert!(section.contains("a1-body"));
    assert!(!section.contains("b-body"));
}

#[test]
fn extract_section_missing_returns_none() {
    let d = doc("# A\n", vec![h(1, "A", 0)]);
    assert!(d.extract_section("missing").is_none());
}

// ---------- extract_section_at_index ----------

#[test]
fn extract_section_at_index_duplicate_sub_headings() {
    let content = "# heading\nfirst body\n\n## sub heading\nfirst sub\n\n# heading 2\nsecond body\n\n## sub heading\nsecond sub\n";
    let h1 = content.find("# heading\n").unwrap();
    let s1 = content.find("## sub heading\nfirst").unwrap();
    let h2 = content.find("# heading 2").unwrap();
    let s2 = content.find("## sub heading\nsecond").unwrap();
    let d = doc(
        content,
        vec![
            h_in(content, 1, "heading", h1),
            h_in(content, 2, "sub heading", s1),
            h_in(content, 1, "heading 2", h2),
            h_in(content, 2, "sub heading", s2),
        ],
    );

    let first = d.extract_section_at_index(1).unwrap();
    assert!(first.contains("first sub"));
    assert!(!first.contains("second sub"));

    let second = d.extract_section_at_index(3).unwrap();
    assert!(second.contains("second sub"));
    assert!(!second.contains("first sub"));
}

#[test]
fn extract_section_at_index_duplicate_at_eof() {
    let content =
        "# First\nFirst body.\n\n# Second\nMiddle.\n\n# First\nLast body.\nEOF line.\n";
    let f1 = content.find("# First\nFirst").unwrap();
    let sec = content.find("# Second").unwrap();
    let f2 = content.find("# First\nLast").unwrap();
    let d = doc(
        content,
        vec![
            h_in(content, 1, "First", f1),
            h_in(content, 1, "Second", sec),
            h_in(content, 1, "First", f2),
        ],
    );

    let first = d.extract_section_at_index(0).unwrap();
    assert!(first.contains("First body"));
    assert!(!first.contains("Last body"));

    let last = d.extract_section_at_index(2).unwrap();
    assert!(last.contains("Last body"));
    assert!(!last.contains("First body"));
}

#[test]
fn extract_section_at_index_out_of_bounds() {
    let d = doc("# A\n", vec![h(1, "A", 0)]);
    assert!(d.extract_section_at_index(999).is_none());
}

// ---------- real heading constructs ----------

#[test]
fn extract_section_crlf_does_not_panic_and_excludes_heading() {
    // Mid-multibyte-char on a CRLF line previously risked a byte-slice
    // panic in the section extractor.
    let d = parse_markdown("# Top\r\naaa\r\nccé\r\n# Next\r\n");
    let top = d.extract_section_at_index(0).unwrap();
    assert!(top.contains("aaa"));
    assert!(top.contains("ccé"));
    assert!(!top.contains("# Top"));
    assert!(!top.contains("# Next"));
}

#[test]
fn extract_section_setext_excludes_underline() {
    // The setext underline ("-----") must not appear in the body.
    let d = parse_markdown("Title\n=====\nbody\n\nSub\n-----\nsub body\n");
    // Two headings: Title (h1), Sub (h2).
    let sub_idx = d.headings.iter().position(|h| h.text == "Sub").unwrap();
    let body = d.extract_section_at_index(sub_idx).unwrap();
    assert_eq!(body.trim(), "sub body");
    assert!(!body.contains("-----"));
}

#[test]
fn extract_section_solo_heading_at_eof_is_empty() {
    // A heading with no trailing newline and no body should yield "" — not
    // its own heading line.
    let d = parse_markdown("# First\nbody\n\n# Solo");
    let solo_idx = d.headings.iter().position(|h| h.text == "Solo").unwrap();
    let body = d.extract_section_at_index(solo_idx).unwrap();
    assert_eq!(body, "");
}

// ---------- heading_line_ranges ----------

#[test]
fn heading_line_ranges_flat_siblings_partition_the_document() {
    let d = parse_markdown("# A\nline2\n\n# B\nline5\n\n# C\nline8\n");
    let ranges = d.heading_line_ranges();
    let a = d.headings.iter().find(|h| h.text == "A").unwrap();
    let b = d.headings.iter().find(|h| h.text == "B").unwrap();
    let c = d.headings.iter().find(|h| h.text == "C").unwrap();
    assert_eq!(ranges[&a.offset], (1, 3));
    assert_eq!(ranges[&b.offset], (4, 6));
    assert_eq!(ranges[&c.offset], (7, 8));
}

#[test]
fn heading_line_ranges_parent_range_spans_its_children() {
    // # A (line 1) nests ## B (line 2) and ## C (line 4); # D (line 6)
    // follows at the same level as A, so A's range stops right before it.
    let d = parse_markdown("# A\n## B\nb-body\n## C\nc-body\n# D\nd-body\n");
    let ranges = d.heading_line_ranges();
    let a = d.headings.iter().find(|h| h.text == "A").unwrap();
    let b = d.headings.iter().find(|h| h.text == "B").unwrap();
    let c = d.headings.iter().find(|h| h.text == "C").unwrap();
    let dd = d.headings.iter().find(|h| h.text == "D").unwrap();
    assert_eq!(ranges[&a.offset], (1, 5), "A spans through both children");
    assert_eq!(ranges[&b.offset], (2, 3));
    assert_eq!(ranges[&c.offset], (4, 5));
    assert_eq!(ranges[&dd.offset], (6, 7));
}

#[test]
fn heading_line_ranges_last_heading_ends_at_last_document_line() {
    let d = parse_markdown("# A\nbody1\n# B\nbody2\nbody3\n");
    let ranges = d.heading_line_ranges();
    let b = d.headings.iter().find(|h| h.text == "B").unwrap();
    assert_eq!(ranges[&b.offset], (3, 5));
}

#[test]
fn heading_line_ranges_no_trailing_newline_still_counts_last_line() {
    // No trailing "\n" after "end" — it must still count as its own line.
    let d = parse_markdown("# A\nbody\n\n## B\nend");
    let ranges = d.heading_line_ranges();
    let b = d.headings.iter().find(|h| h.text == "B").unwrap();
    assert_eq!(ranges[&b.offset], (4, 5));
}
