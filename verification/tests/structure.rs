use treemd::parser::document::SectionLookup;
use treemd::parser::forest::find_at_most;
use treemd::parser::lines::{count_lines, count_newlines, find_line_start};
use treemd::{Document, Heading, HeadingNode};

fn heading(level: usize, text: &str, offset: usize, source_len: usize) -> Heading {
    Heading {
        level,
        text: text.to_string(),
        offset,
        source_len,
    }
}

const GUIDE: &str = "# Intro\nhello\n\n## Setup\nrun it\n### Linux\napt\n## Use\ngo\n# End\nbye";

fn guide() -> Document {
    let mut headings = Vec::new();
    for (level, text) in [(1, "Intro"), (2, "Setup"), (3, "Linux"), (2, "Use"), (1, "End")] {
        let line = format!("{} {}\n", "#".repeat(level), text);
        let offset = GUIDE.find(&line).unwrap();
        headings.push(heading(level, text, offset, line.len()));
    }
    Document::new(GUIDE.to_string(), headings)
}

fn preorder<'a>(nodes: &'a [HeadingNode], out: &mut Vec<&'a HeadingNode>) {
    for node in nodes {
        out.push(node);
        preorder(&node.children, out);
    }
}

#[test]
fn tree_in_reading_order_is_the_heading_list() {
    let d = guide();
    let tree = d.build_tree();
    let mut nodes = Vec::new();
    preorder(&tree, &mut nodes);
    let texts: Vec<&str> = nodes.iter().map(|n| n.heading.text.as_str()).collect();
    assert_eq!(texts, ["Intro", "Setup", "Linux", "Use", "End"]);
    let indices: Vec<usize> = nodes.iter().map(|n| n.index).collect();
    assert_eq!(indices, [0, 1, 2, 3, 4]);
}

#[test]
fn children_are_deeper_than_their_parent() {
    let headings = vec![
        heading(3, "deep", 0, 0),
        heading(1, "top", 1, 0),
        heading(4, "far", 2, 0),
        heading(2, "near", 3, 0),
        heading(2, "again", 4, 0),
    ];
    let tree = Document::new(String::new(), headings).build_tree();
    assert_eq!(tree.len(), 2);
    assert_eq!(tree[0].heading.text, "deep");
    let kids: Vec<&str> = tree[1]
        .children
        .iter()
        .map(|n| n.heading.text.as_str())
        .collect();
    assert_eq!(kids, ["far", "near", "again"]);
}

#[test]
fn find_at_most_stops_at_the_level_or_the_end() {
    let d = guide();
    assert_eq!(find_at_most(&d.headings, 1, 1), 4);
    assert_eq!(find_at_most(&d.headings, 2, 2), 3);
    assert_eq!(find_at_most(&d.headings, 5, 1), 5);
}

#[test]
fn cloned_document_and_tree_are_the_same() {
    let d = guide();
    let copy = d.clone();
    assert_eq!(copy.content, d.content);
    assert_eq!(copy.headings.len(), 5);
    assert_eq!(copy.find_heading("use").unwrap().offset, d.headings[3].offset);
    let tree = d.build_tree();
    let twin = tree[0].clone();
    assert_eq!(twin.render_box_tree("", true), tree[0].render_box_tree("", true));
}

#[test]
fn search_ignores_case_beyond_ascii() {
    let headings = vec![heading(1, "ÜBERSICHT", 0, 0), heading(1, "Straße", 1, 0)];
    let d = Document::new(String::new(), headings);
    assert_eq!(d.find_heading("übersicht").unwrap().offset, 0);
    assert_eq!(d.filter_headings("SICHT").len(), 1);
    assert_eq!(d.filter_headings("ß").len(), 1);
}

#[test]
fn found_heading_passes_its_own_filter() {
    let d = guide();
    for text in ["intro", "SETUP", "Linux", "use", "end"] {
        let found = d.find_heading(text).unwrap().offset;
        assert!(d.filter_headings(text).iter().any(|h| h.offset == found));
    }
}

#[test]
fn headings_added_later_are_not_found() {
    let mut d = guide();
    d.headings.push(heading(1, "Late", GUIDE.len(), 0));
    assert!(d.find_heading("late").is_none());
    assert!(d.extract_section("late").is_none());
    assert_eq!(d.filter_headings("").len(), 5);
    assert_eq!(d.headings_at_level(1).len(), 3);
}

#[test]
fn headings_taken_away_are_not_found() {
    let mut d = guide();
    d.headings.truncate(3);
    assert!(d.lookup_heading("use").is_none());
    assert!(d.extract_section("use").is_none());
    assert!(matches!(d.lookup_section("end"), SectionLookup::Missing));
    assert_eq!(d.lookup_heading("LINUX").unwrap().level, 3);
    assert_eq!(d.find_heading("setup").unwrap().level, 2);
    assert!(d.find_heading("nowhere").is_none());
    assert_eq!(d.filter_headings("").len(), 3);
    assert_eq!(
        d.extract_section("linux").unwrap(),
        "apt\n## Use\ngo\n# End\nbye"
    );
}

#[test]
fn sections_hold_their_subsections() {
    let d = guide();
    assert_eq!(
        d.extract_section("setup").unwrap(),
        "run it\n### Linux\napt"
    );
    assert_eq!(
        d.extract_section("Intro").unwrap(),
        "hello\n\n## Setup\nrun it\n### Linux\napt\n## Use\ngo"
    );
    assert_eq!(d.extract_section("End").unwrap(), "bye");
    for i in 0..5 {
        assert!(d.body_start(i) <= d.section_end_any(i));
        assert!(d.section_end_any(i) <= d.section_end(i));
        assert!(d.has_section_placed(i));
    }
    assert_eq!(d.section_end_any(4), GUIDE.len());
    assert_eq!(d.section_end_any(9), GUIDE.len());
}

#[test]
fn section_text_is_trimmed_of_any_white_space() {
    let content = "# A\n\u{3000}\t x y \u{a0}\n";
    let d = Document::new(content.to_string(), vec![heading(1, "A", 0, 4)]);
    assert_eq!(d.extract_section_at_index(0).unwrap(), "x y");
    assert!(d.extract_section_at_index(1).is_none());
}

#[test]
fn body_starts_on_the_next_line_when_the_heading_stops_short() {
    let content = "# A trailing\nbody\n";
    let d = Document::new(content.to_string(), vec![heading(1, "A", 0, 3)]);
    assert_eq!(d.body_start(0), 13);
    assert_eq!(d.extract_section("a").unwrap(), "body");
    let at_end = Document::new("# A".to_string(), vec![heading(1, "A", 0, 9)]);
    assert_eq!(at_end.body_start(0), 3);
}

#[test]
fn lookup_tells_missing_misplaced_and_found_apart() {
    let content = "# Ä\nbody";
    let d = Document::new(
        content.to_string(),
        vec![heading(1, "Ä", 0, 5), heading(1, "split", 3, 0), heading(1, "far", 90, 0)],
    );
    assert!(matches!(d.lookup_section("none"), SectionLookup::Missing));
    // The section ends inside of a character.
    assert!(matches!(d.lookup_section("ä"), SectionLookup::Misplaced));
    // The end of the heading lies inside of a character.
    assert!(matches!(d.lookup_section("split"), SectionLookup::Misplaced));
    let good = Document::new(content.to_string(), vec![heading(1, "Ä", 0, 5)]);
    match good.lookup_section("ä") {
        SectionLookup::Found(text) => assert_eq!(text, "body"),
        _ => panic!("the section is there"),
    }
    let overflow = Document::new(String::new(), vec![heading(1, "x", usize::MAX, 1)]);
    assert!(!overflow.has_section_placed(0));
}

#[test]
fn line_ranges_nest_and_tile() {
    let d = guide();
    let ranges = d.heading_line_ranges();
    let of = |i: usize| ranges[&d.headings[i].offset];
    assert_eq!(of(0), (1, 9));
    assert_eq!(of(1), (4, 7));
    assert_eq!(of(2), (6, 7));
    assert_eq!(of(3), (8, 9));
    assert_eq!(of(4), (10, 11));
    assert_eq!(ranges.len(), 5);
}

#[test]
fn line_ranges_end_with_their_sections() {
    let d = guide();
    let ranges = d.heading_line_ranges();
    for (i, h) in d.headings.iter().enumerate() {
        let before = &GUIDE[..d.section_end(i)];
        assert_eq!(ranges[&h.offset].1, before.lines().count());
    }
}

#[test]
fn lines_are_counted_in_bytes_and_characters_alike() {
    for text in ["", "\n", "a", "a\n", "ä\nö\n\nü", "\u{10a}\u{20ac}\n\u{1f600}"] {
        assert_eq!(count_lines(text.as_bytes()), text.lines().count());
        let feeds = text.chars().filter(|c| *c == '\n').count();
        assert_eq!(count_newlines(text.as_bytes(), 0, text.len()), feeds);
    }
}

#[test]
fn line_start_is_at_or_after_the_position() {
    let b = b"one\ntwo\nthree";
    assert_eq!(find_line_start(b, 0), 0);
    assert_eq!(find_line_start(b, 4), 4);
    assert_eq!(find_line_start(b, 5), 8);
    assert_eq!(find_line_start(b, 9), 13);
    assert_eq!(find_line_start(b, 40), 13);
}

#[test]
fn tree_is_drawn_with_one_line_per_heading() {
    let d = guide();
    let tree = d.build_tree();
    let spaced = tree[0].render_box_tree("", false);
    assert_eq!(
        spaced,
        "├─ # Intro\n│   ├─ ## Setup\n│   │   └─ ### Linux\n│   └─ ## Use\n"
    );
    let compact = tree[0].render_box_tree_styled("> ", true, true);
    assert_eq!(
        compact,
        "> └──# Intro\n>    ├──## Setup\n>    │  └──### Linux\n>    └──## Use\n"
    );
    assert_eq!(compact.lines().count(), 4);
}

#[test]
fn prefix_stands_before_every_line() {
    let d = guide();
    let tree = d.build_tree();
    let ranges = d.heading_line_ranges();
    for prefix in ["", "> ", "│   "] {
        let plain = tree[0].render_box_tree_with_lines("", false, true, &ranges);
        let expected: String = plain
            .split_inclusive('\n')
            .map(|line| format!("{prefix}{line}"))
            .collect();
        let drawn = tree[0].render_box_tree_with_lines(prefix, false, true, &ranges);
        assert_eq!(drawn, expected);
    }
}

#[test]
fn ranges_are_appended_line_by_line() {
    let d = guide();
    let tree = d.build_tree();
    let mut ranges = d.heading_line_ranges();
    ranges.remove(&d.headings[2].offset);
    let plain = tree[0].render_box_tree_styled("* ", true, false);
    let ranged = tree[0].render_box_tree_inner("* ", true, false, Some(&ranges));
    let expected: Vec<String> = plain
        .lines()
        .zip(&d.headings)
        .map(|(line, h)| match ranges.get(&h.offset) {
            Some((a, b)) => format!("{line} [{a}-{b}]"),
            None => line.to_string(),
        })
        .collect();
    assert_eq!(ranged.lines().collect::<Vec<_>>(), expected);
}

#[test]
fn line_ranges_are_appended_where_they_are_known() {
    let d = guide();
    let tree = d.build_tree();
    let mut ranges = d.heading_line_ranges();
    assert_eq!(
        tree[1].render_box_tree_with_lines("", true, false, &ranges),
        "└─ # End [10-11]\n"
    );
    ranges.insert(d.headings[4].offset, (1234, 98760));
    assert_eq!(
        tree[1].render_box_tree_with_lines("", true, false, &ranges),
        "└─ # End [1234-98760]\n"
    );
    ranges.clear();
    assert_eq!(
        tree[1].render_box_tree_with_lines("", true, false, &ranges),
        tree[1].render_box_tree("", true)
    );
}
