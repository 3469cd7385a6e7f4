//! Drawing the heading tree with box-drawing characters.
use crate::parser::forest::preorder;
use crate::parser::heading::{Heading, HeadingNode};
use crate::parser::lines::{
    ends_a_line, law_lines_with_endings, lemma_line_feeds_concat, lemma_lines_concat,
    lemma_no_line_feeds, lemma_one_line, line_feeds, lines_with_endings,
};
use crate::text::{decimal, push_decimal, push_repeated, repeated};
use std::collections::HashMap;
use vstd::prelude::*;

verus! {

broadcast use vstd::std_specs::hash::group_hash_axioms;

/// First and last line, counted from one, of the headings at given byte offsets.
pub type LineRanges = Map<usize, (usize, usize)>;

/// The branch drawn in front of a heading: the last sibling closes the branch,
/// the others keep it going.
pub open spec fn connector(is_last: bool, compact: bool) -> Seq<char> {
    if compact {
        if is_last {
            "└──"@
        } else {
            "├──"@
        }
    } else {
        if is_last {
            "└─ "@
        } else {
            "├─ "@
        }
    }
}

/// What stands below the branch of a heading, in front of its children.
pub open spec fn continuation(is_last: bool, compact: bool) -> Seq<char> {
    if compact {
        if is_last {
            "   "@
        } else {
            "│  "@
        }
    } else {
        if is_last {
            "    "@
        } else {
            "│   "@
        }
    }
}

/// The line range in brackets, where `ranges` has one for this offset.
pub open spec fn range_suffix(offset: usize, ranges: Option<LineRanges>) -> Seq<char> {
    match ranges {
        Some(known) if known.contains_key(offset) => {
            " ["@ + decimal(known[offset].0 as nat) + "-"@ + decimal(known[offset].1 as nat) + "]"@
        },
        _ => Seq::empty(),
    }
}

/// The line of one heading: branch, one `#` per level, text and line range.
pub open spec fn heading_line(
    heading: Heading,
    prefix: Seq<char>,
    is_last: bool,
    compact: bool,
    ranges: Option<LineRanges>,
) -> Seq<char> {
    prefix + connector(is_last, compact) + repeated('#', heading.level as nat) + " "@
        + heading.text@ + range_suffix(heading.offset, ranges) + "\n"@
}

/// The drawing of a node: its own line, then its children, each behind the
/// continuation of this node's branch.
pub open spec fn drawn_node(
    node: HeadingNode,
    prefix: Seq<char>,
    is_last: bool,
    compact: bool,
    ranges: Option<LineRanges>,
) -> Seq<char>
    decreases node, 0nat,
{
    heading_line(node.heading, prefix, is_last, compact, ranges) + drawn_siblings(
        node.children@,
        node.children@.len(),
        prefix + continuation(is_last, compact),
        compact,
        ranges,
    )
}

/// The drawings of the first `count` of these siblings, one after the other.
pub open spec fn drawn_siblings(
    nodes: Seq<HeadingNode>,
    count: nat,
    prefix: Seq<char>,
    compact: bool,
    ranges: Option<LineRanges>,
) -> Seq<char>
    decreases nodes, count,
{
    if count == 0 || count > nodes.len() {
        Seq::empty()
    } else {
        drawn_siblings(nodes, (count - 1) as nat, prefix, compact, ranges) + drawn_node(
            nodes[count - 1],
            prefix,
            count == nodes.len(),
            compact,
            ranges,
        )
    }
}

/// The model of an optional map of line ranges.
pub open spec fn ranges_view(ranges: Option<&HashMap<usize, (usize, usize)>>) -> Option<LineRanges> {
    match ranges {
        Some(known) => Some(known@),
        None => None,
    }
}

impl HeadingNode {
    /// Render as tree with box-drawing characters, in the spaced style.
    pub fn render_box_tree(&self, prefix: &str, is_last: bool) -> (r: String)
        ensures
            r@ == drawn_node(*self, prefix@, is_last, false, None),
    {
        self.render_box_tree_styled(prefix, is_last, false)
    }

    /// Render as tree with box-drawing characters, with optional compact style.
    pub fn render_box_tree_styled(&self, prefix: &str, is_last: bool, compact: bool) -> (r: String)
        ensures
            r@ == drawn_node(*self, prefix@, is_last, compact, None),
    {
        self.render_box_tree_inner(prefix, is_last, compact, None)
    }

    /// Render as tree with box-drawing characters, appending each heading's
    /// `[start-end]` line range (see `Document::heading_line_ranges`).
    pub fn render_box_tree_with_lines(
        &self,
        prefix: &str,
        is_last: bool,
        compact: bool,
        ranges: &HashMap<usize, (usize, usize)>,
    ) -> (r: String)
        ensures
            r@ == drawn_node(*self, prefix@, is_last, compact, Some(ranges@)),
    {
        self.render_box_tree_inner(prefix, is_last, compact, Some(ranges))
    }

    /// Render as tree with box-drawing characters, with the line ranges where
    /// there are any.
    pub fn render_box_tree_inner(
        &self,
        prefix: &str,
        is_last: bool,
        compact: bool,
        ranges: Option<&HashMap<usize, (usize, usize)>>,
    ) -> (r: String)
        ensures
            r@ == drawn_node(*self, prefix@, is_last, compact, ranges_view(ranges)),
        decreases self,
    {
        let (branch, below) = if compact {
            if is_last {
                ("└──", "   ")
            } else {
                ("├──", "│  ")
            }
        } else {
            if is_last {
                ("└─ ", "    ")
            } else {
                ("├─ ", "│   ")
            }
        };
        let mut result = String::new();
        result.push_str(prefix);
        result.push_str(branch);
        push_repeated(&mut result, '#', self.heading.level);
        result.push_str(" ");
        result.push_str(self.heading.text.as_str());
        push_range(&mut result, self.heading.offset, ranges);
        result.push_str("\n");

        let mut child_prefix = String::new();
        child_prefix.push_str(prefix);
        child_prefix.push_str(below);
        let ghost line = heading_line(
            self.heading,
            prefix@,
            is_last,
            compact,
            ranges_view(ranges),
        );
        assert(result@ =~= line);
        assert(child_prefix@ =~= prefix@ + continuation(is_last, compact));

        let mut i: usize = 0;
        while i < self.children.len()
            invariant
                0 <= i <= self.children@.len(),
                child_prefix@ == prefix@ + continuation(is_last, compact),
                result@ == line + drawn_siblings(
                    self.children@,
                    i as nat,
                    child_prefix@,
                    compact,
                    ranges_view(ranges),
                ),
            decreases self.children@.len() - i,
        {
            let is_last_child = i == self.children.len() - 1;
            let drawn = self.children[i].render_box_tree_inner(
                child_prefix.as_str(),
                is_last_child,
                compact,
                ranges,
            );
            result.push_str(drawn.as_str());
            i += 1;
            assert(result@ =~= line + drawn_siblings(
                self.children@,
                i as nat,
                child_prefix@,
                compact,
                ranges_view(ranges),
            ));
        }
        result
    }
}

/// Appends the line range of the heading at `offset`, where there is one.
fn push_range(s: &mut String, offset: usize, ranges: Option<&HashMap<usize, (usize, usize)>>)
    ensures
        final(s)@ == old(s)@ + range_suffix(offset, ranges_view(ranges)),
{
    let ghost start = s@;
    if let Some(known) = ranges {
        if let Some(range) = known.get(&offset) {
            s.push_str(" [");
            push_decimal(s, range.0);
            s.push_str("-");
            push_decimal(s, range.1);
            s.push_str("]");
        }
    }
    assert(s@ =~= start + range_suffix(offset, ranges_view(ranges)));
}

proof fn lemma_decimal_has_no_line_feed(n: nat)
    ensures
        line_feeds(decimal(n)) == 0,
    decreases n,
{
    if n < 10 {
        reveal_with_fuel(line_feeds, 2);
    } else {
        lemma_decimal_has_no_line_feed(n / 10);
        assert(decimal(n).drop_last() =~= decimal(n / 10));
    }
}

proof fn lemma_range_suffix_has_no_line_feed(offset: usize, ranges: Option<LineRanges>)
    ensures
        line_feeds(range_suffix(offset, ranges)) == 0,
{
    if let Some(known) = ranges {
        if known.contains_key(offset) {
            let first = decimal(known[offset].0 as nat);
            let last = decimal(known[offset].1 as nat);
            reveal_strlit(" [");
            reveal_strlit("-");
            reveal_strlit("]");
            lemma_no_line_feeds(" ["@);
            lemma_no_line_feeds("-"@);
            lemma_no_line_feeds("]"@);
            lemma_decimal_has_no_line_feed(known[offset].0 as nat);
            lemma_decimal_has_no_line_feed(known[offset].1 as nat);
            lemma_line_feeds_concat(" ["@, first);
            lemma_line_feeds_concat(" ["@ + first, "-"@);
            lemma_line_feeds_concat(" ["@ + first + "-"@, last);
            lemma_line_feeds_concat(" ["@ + first + "-"@ + last, "]"@);
        }
    }
}

pub proof fn lemma_branches_have_no_line_feed(is_last: bool, compact: bool)
    ensures
        line_feeds(connector(is_last, compact)) == 0,
        line_feeds(continuation(is_last, compact)) == 0,
{
    reveal_strlit("└──");
    reveal_strlit("├──");
    reveal_strlit("└─ ");
    reveal_strlit("├─ ");
    reveal_strlit("   ");
    reveal_strlit("│  ");
    reveal_strlit("    ");
    reveal_strlit("│   ");
    lemma_no_line_feeds(connector(is_last, compact));
    lemma_no_line_feeds(continuation(is_last, compact));
}

proof fn lemma_heading_line_is_one_line(
    heading: Heading,
    prefix: Seq<char>,
    is_last: bool,
    compact: bool,
    ranges: Option<LineRanges>,
)
    requires
        line_feeds(prefix) == 0,
        !heading.text@.contains('\n'),
    ensures
        line_feeds(heading_line(heading, prefix, is_last, compact, ranges)) == 1,
{
    let branch = connector(is_last, compact);
    let marks = repeated('#', heading.level as nat);
    let suffix = range_suffix(heading.offset, ranges);
    reveal_strlit(" ");
    reveal_strlit("\n");
    lemma_branches_have_no_line_feed(is_last, compact);
    lemma_no_line_feeds(marks);
    lemma_no_line_feeds(" "@);
    lemma_no_line_feeds(heading.text@);
    lemma_range_suffix_has_no_line_feed(heading.offset, ranges);
    reveal_with_fuel(line_feeds, 2);
    lemma_line_feeds_concat(prefix, branch);
    lemma_line_feeds_concat(prefix + branch, marks);
    lemma_line_feeds_concat(prefix + branch + marks, " "@);
    lemma_line_feeds_concat(prefix + branch + marks + " "@, heading.text@);
    lemma_line_feeds_concat(prefix + branch + marks + " "@ + heading.text@, suffix);
    lemma_line_feeds_concat(prefix + branch + marks + " "@ + heading.text@ + suffix, "\n"@);
}

pub proof fn lemma_preorder_concat(a: Seq<HeadingNode>, b: Seq<HeadingNode>)
    ensures
        preorder(a + b) == preorder(a) + preorder(b),
    decreases a.len(),
{
    if a.len() == 0 {
        assert(a + b =~= b);
        assert(preorder(a) + preorder(b) =~= preorder(b));
    } else {
        lemma_preorder_concat(a.drop_first(), b);
        assert((a + b).drop_first() =~= a.drop_first() + b);
        assert(preorder(a + b) =~= preorder(a) + preorder(b));
    }
}

// ---------- the lines of the drawing ----------

/// The lines with `prefix` in front of each.
pub open spec fn prefixed_lines(lines: Seq<Seq<char>>, prefix: Seq<char>) -> Seq<char>
    decreases lines.len(),
{
    if lines.len() == 0 {
        Seq::empty()
    } else {
        prefix + lines[0] + prefixed_lines(lines.skip(1), prefix)
    }
}

/// `text` with `prefix` in front of each of its lines.
pub open spec fn prefixed(text: Seq<char>, prefix: Seq<char>) -> Seq<char> {
    prefixed_lines(lines_with_endings(text), prefix)
}

/// The line shows the heading behind the prefix and a branch: one `#` per level,
/// its text and its line range.
pub open spec fn shows_heading(
    line: Seq<char>,
    prefix: Seq<char>,
    heading: Heading,
    ranges: Option<LineRanges>,
) -> bool {
    exists|branch: Seq<char>|
        line == prefix + branch + repeated('#', heading.level as nat) + " "@ + heading.text@
            + range_suffix(heading.offset, ranges) + "\n"@
}

/// No heading text breaks the line.
pub open spec fn keep_to_their_lines(nodes: Seq<HeadingNode>) -> bool {
    forall|i: int|
        0 <= i < preorder(nodes).len() ==> !(#[trigger] preorder(
            nodes,
        )[i]).heading.text@.contains('\n')
}

proof fn lemma_prefixed_concat(a: Seq<Seq<char>>, b: Seq<Seq<char>>, prefix: Seq<char>)
    ensures
        prefixed_lines(a + b, prefix) == prefixed_lines(a, prefix) + prefixed_lines(b, prefix),
    decreases a.len(),
{
    if a.len() == 0 {
        assert(a + b =~= b);
        assert(prefixed_lines(a, prefix) + prefixed_lines(b, prefix) =~= prefixed_lines(b, prefix));
    } else {
        lemma_prefixed_concat(a.skip(1), b, prefix);
        assert((a + b).skip(1) =~= a.skip(1) + b);
        assert(prefixed_lines(a + b, prefix) =~= prefixed_lines(a, prefix) + prefixed_lines(
            b,
            prefix,
        ));
    }
}

/// A text without line feeds does not contain one.
proof fn lemma_no_line_feed_inside(text: Seq<char>)
    requires
        line_feeds(text) == 0,
    ensures
        !text.contains('\n'),
    decreases text.len(),
{
    if text.len() > 0 {
        lemma_no_line_feed_inside(text.drop_last());
        assert forall|i: int| 0 <= i < text.len() implies text[i] != '\n' by {
            if i < text.len() - 1 {
                assert(text.drop_last().contains(text.drop_last()[i]));
            }
        }
    }
}

/// The line of a heading is a single line.
pub proof fn lemma_heading_line_lines(
    heading: Heading,
    prefix: Seq<char>,
    is_last: bool,
    compact: bool,
    ranges: Option<LineRanges>,
)
    requires
        line_feeds(prefix) == 0,
        !heading.text@.contains('\n'),
    ensures
        ({
            let line = heading_line(heading, prefix, is_last, compact, ranges);
            &&& ends_a_line(line)
            &&& lines_with_endings(line) == seq![line]
        }),
{
    let line = heading_line(heading, prefix, is_last, compact, ranges);
    reveal_strlit("\n");
    lemma_heading_line_is_one_line(heading, prefix, is_last, compact, ranges);
    assert(line.last() == '\n');
    lemma_no_line_feed_inside(line.drop_last());
    lemma_one_line(line);
}

/// A drawing is a whole number of lines.
pub proof fn lemma_drawing_ends_a_line(
    nodes: Seq<HeadingNode>,
    count: nat,
    prefix: Seq<char>,
    compact: bool,
    ranges: Option<LineRanges>,
)
    ensures
        ends_a_line(drawn_siblings(nodes, count, prefix, compact, ranges)),
    decreases nodes, count,
{
    if 0 < count <= nodes.len() {
        lemma_node_ends_a_line(
            nodes[count - 1],
            prefix,
            count == nodes.len(),
            compact,
            ranges,
        );
    }
}

proof fn lemma_node_ends_a_line(
    node: HeadingNode,
    prefix: Seq<char>,
    is_last: bool,
    compact: bool,
    ranges: Option<LineRanges>,
)
    ensures
        drawn_node(node, prefix, is_last, compact, ranges).len() > 0,
        ends_a_line(drawn_node(node, prefix, is_last, compact, ranges)),
    decreases node, 0nat,
{
    reveal_strlit("\n");
    lemma_drawing_ends_a_line(
        node.children@,
        node.children@.len(),
        prefix + continuation(is_last, compact),
        compact,
        ranges,
    );
}

/// What holds of all nodes holds of the children and of the siblings.
pub proof fn lemma_keep_to_their_lines(node: HeadingNode)
    requires
        keep_to_their_lines(seq![node]),
    ensures
        !node.heading.text@.contains('\n'),
        keep_to_their_lines(node.children@),
        preorder(seq![node]) == seq![node] + preorder(node.children@),
{
    let kids = node.children@;
    assert(seq![node].drop_first() =~= Seq::empty());
    assert(preorder(seq![node].drop_first()) =~= Seq::empty());
    assert(preorder(seq![node]) =~= seq![node] + preorder(kids));
    assert(preorder(seq![node])[0] == node);
    assert forall|i: int| 0 <= i < preorder(kids).len() implies !(#[trigger] preorder(
        kids,
    )[i]).heading.text@.contains('\n') by {
        assert(preorder(kids)[i] == preorder(seq![node])[i + 1]);
    }
}

pub proof fn lemma_sibling_keeps_to_its_lines(nodes: Seq<HeadingNode>, count: nat)
    requires
        keep_to_their_lines(nodes),
        0 < count <= nodes.len(),
    ensures
        keep_to_their_lines(seq![nodes[count - 1]]),
        preorder(nodes.take(count as int)) == preorder(nodes.take(count - 1)) + preorder(
            seq![nodes[count - 1]],
        ),
{
    let before = nodes.take(count - 1);
    let node = nodes[count - 1];
    let rest = nodes.skip(count as int);
    lemma_preorder_concat(before, seq![node]);
    lemma_preorder_concat(before + seq![node], rest);
    assert(nodes.take(count as int) =~= before + seq![node]);
    assert(nodes =~= before + seq![node] + rest);
    assert forall|i: int| 0 <= i < preorder(seq![node]).len() implies !(#[trigger] preorder(
        seq![node],
    )[i]).heading.text@.contains('\n') by {
        assert(preorder(seq![node])[i] == preorder(nodes)[preorder(before).len() + i]);
    }
}

/// Drawing with a prefix is drawing without it, with the prefix put in front of
/// every line. What stands behind the prefix, in `inner`, and the heading texts
/// must not break the line.
pub proof fn law_prefix_stands_before_every_line(
    node: HeadingNode,
    prefix: Seq<char>,
    inner: Seq<char>,
    is_last: bool,
    compact: bool,
    ranges: Option<LineRanges>,
)
    requires
        line_feeds(inner) == 0,
        keep_to_their_lines(seq![node]),
    ensures
        drawn_node(node, prefix + inner, is_last, compact, ranges) == prefixed(
            drawn_node(node, inner, is_last, compact, ranges),
            prefix,
        ),
    decreases node, 0nat,
{
    let kids = node.children@;
    let line = heading_line(node.heading, inner, is_last, compact, ranges);
    let below = inner + continuation(is_last, compact);
    let drawn = drawn_siblings(kids, kids.len(), below, compact, ranges);
    lemma_keep_to_their_lines(node);
    lemma_heading_line_lines(node.heading, inner, is_last, compact, ranges);
    lemma_branches_have_no_line_feed(is_last, compact);
    lemma_line_feeds_concat(inner, continuation(is_last, compact));
    lemma_prefix_before_siblings(kids, kids.len(), prefix, below, compact, ranges);
    lemma_lines_concat(line, drawn);
    lemma_prefixed_concat(seq![line], lines_with_endings(drawn), prefix);
    assert(seq![line].skip(1) =~= Seq::empty());
    assert(prefixed_lines(seq![line].skip(1), prefix) =~= Seq::empty());
    assert(prefixed_lines(seq![line], prefix) =~= prefix + line);
    assert(heading_line(node.heading, prefix + inner, is_last, compact, ranges) =~= prefix + line);
    assert((prefix + inner) + continuation(is_last, compact) =~= prefix + below);
}

proof fn lemma_prefix_before_siblings(
    nodes: Seq<HeadingNode>,
    count: nat,
    prefix: Seq<char>,
    inner: Seq<char>,
    compact: bool,
    ranges: Option<LineRanges>,
)
    requires
        count <= nodes.len(),
        line_feeds(inner) == 0,
        keep_to_their_lines(nodes),
    ensures
        drawn_siblings(nodes, count, prefix + inner, compact, ranges) == prefixed(
            drawn_siblings(nodes, count, inner, compact, ranges),
            prefix,
        ),
    decreases nodes, count,
{
    if count > 0 {
        let fewer = (count - 1) as nat;
        let is_last = count == nodes.len();
        let before = drawn_siblings(nodes, fewer, inner, compact, ranges);
        let drawn = drawn_node(nodes[count - 1], inner, is_last, compact, ranges);
        lemma_sibling_keeps_to_its_lines(nodes, count);
        lemma_prefix_before_siblings(nodes, fewer, prefix, inner, compact, ranges);
        law_prefix_stands_before_every_line(
            nodes[count - 1],
            prefix,
            inner,
            is_last,
            compact,
            ranges,
        );
        lemma_drawing_ends_a_line(nodes, fewer, inner, compact, ranges);
        lemma_lines_concat(before, drawn);
        lemma_prefixed_concat(lines_with_endings(before), lines_with_endings(drawn), prefix);
    }
}

/// The drawing ends with a line feed, has one line for each heading of the tree,
/// and its lines show the headings in reading order, each behind the prefix.
pub proof fn law_lines_show_the_headings(
    node: HeadingNode,
    prefix: Seq<char>,
    is_last: bool,
    compact: bool,
    ranges: Option<LineRanges>,
)
    requires
        line_feeds(prefix) == 0,
        keep_to_their_lines(seq![node]),
    ensures
        ({
            let drawn = drawn_node(node, prefix, is_last, compact, ranges);
            let lines = lines_with_endings(drawn);
            &&& drawn.len() > 0 && drawn.last() == '\n'
            &&& lines.len() == preorder(seq![node]).len()
            &&& forall|k: int|
                0 <= k < lines.len() ==> shows_heading(
                    #[trigger] lines[k],
                    prefix,
                    preorder(seq![node])[k].heading,
                    ranges,
                )
        }),
    decreases node, 0nat,
{
    let kids = node.children@;
    let line = heading_line(node.heading, prefix, is_last, compact, ranges);
    let branch = continuation(is_last, compact);
    let drawn = drawn_siblings(kids, kids.len(), prefix + branch, compact, ranges);
    let lines = lines_with_endings(drawn_node(node, prefix, is_last, compact, ranges));
    lemma_keep_to_their_lines(node);
    lemma_node_ends_a_line(node, prefix, is_last, compact, ranges);
    lemma_heading_line_lines(node.heading, prefix, is_last, compact, ranges);
    lemma_branches_have_no_line_feed(is_last, compact);
    lemma_line_feeds_concat(prefix, branch);
    lemma_siblings_show_the_headings(kids, kids.len(), prefix + branch, compact, ranges);
    assert(kids.take(kids.len() as int) =~= kids);
    lemma_lines_concat(line, drawn);
    assert forall|k: int| 0 <= k < lines.len() implies shows_heading(
        #[trigger] lines[k],
        prefix,
        preorder(seq![node])[k].heading,
        ranges,
    ) by {
        let heading = preorder(seq![node])[k].heading;
        let tail = repeated('#', heading.level as nat);
        if k == 0 {
            assert(lines[0] == line);
            assert(line == prefix + connector(is_last, compact) + tail + " "@ + heading.text@
                + range_suffix(heading.offset, ranges) + "\n"@);
        } else {
            assert(lines[k] == lines_with_endings(drawn)[k - 1]);
            assert(preorder(seq![node])[k] == preorder(kids)[k - 1]);
            let inner = choose|inner: Seq<char>|
                lines[k] == prefix + branch + inner + tail + " "@ + heading.text@ + range_suffix(
                    heading.offset,
                    ranges,
                ) + "\n"@;
            assert(prefix + branch + inner =~= prefix + (branch + inner));
            assert(lines[k] == prefix + (branch + inner) + tail + " "@ + heading.text@
                + range_suffix(heading.offset, ranges) + "\n"@);
        }
    }
}

proof fn lemma_siblings_show_the_headings(
    nodes: Seq<HeadingNode>,
    count: nat,
    prefix: Seq<char>,
    compact: bool,
    ranges: Option<LineRanges>,
)
    requires
        count <= nodes.len(),
        line_feeds(prefix) == 0,
        keep_to_their_lines(nodes),
    ensures
        ({
            let lines = lines_with_endings(drawn_siblings(nodes, count, prefix, compact, ranges));
            let shown = preorder(nodes.take(count as int));
            &&& lines.len() == shown.len()
            &&& forall|k: int|
                0 <= k < lines.len() ==> shows_heading(
                    #[trigger] lines[k],
                    prefix,
                    shown[k].heading,
                    ranges,
                )
        }),
    decreases nodes, count,
{
    if count > 0 {
        let fewer = (count - 1) as nat;
        let node = nodes[count - 1];
        let is_last = count == nodes.len();
        let before = drawn_siblings(nodes, fewer, prefix, compact, ranges);
        let drawn = drawn_node(node, prefix, is_last, compact, ranges);
        lemma_sibling_keeps_to_its_lines(nodes, count);
        lemma_siblings_show_the_headings(nodes, fewer, prefix, compact, ranges);
        law_lines_show_the_headings(node, prefix, is_last, compact, ranges);
        lemma_drawing_ends_a_line(nodes, fewer, prefix, compact, ranges);
        lemma_lines_concat(before, drawn);
        let lines = lines_with_endings(drawn_siblings(nodes, count, prefix, compact, ranges));
        let shown = preorder(nodes.take(count as int));
        let split = lines_with_endings(before).len();
        assert forall|k: int| 0 <= k < lines.len() implies shows_heading(
            #[trigger] lines[k],
            prefix,
            shown[k].heading,
            ranges,
        ) by {
            if k < split {
                assert(lines[k] == lines_with_endings(before)[k]);
                assert(shown[k] == preorder(nodes.take(count - 1))[k]);
            } else {
                assert(lines[k] == lines_with_endings(drawn)[k - split]);
                assert(shown[k] == preorder(seq![node])[k - split]);
            }
        }
    } else {
        assert(nodes.take(0) =~= Seq::empty());
    }
}

/// The line without ranges, with the line range put before its line feed where
/// there is one.
pub open spec fn with_range(
    line: Seq<char>,
    heading: Heading,
    ranges: Option<LineRanges>,
) -> Seq<char> {
    line.drop_last() + range_suffix(heading.offset, ranges) + "\n"@
}

/// Drawing with line ranges is drawing without them, with the range appended to
/// each line that has one: both have a line for each heading, in reading order.
/// Where the ranges hold none of the headings, the two drawings are the same.
pub proof fn law_ranges_are_appended_to_the_lines(
    node: HeadingNode,
    prefix: Seq<char>,
    is_last: bool,
    compact: bool,
    ranges: Option<LineRanges>,
)
    requires
        line_feeds(prefix) == 0,
        keep_to_their_lines(seq![node]),
    ensures
        ({
            let plain = lines_with_endings(drawn_node(node, prefix, is_last, compact, None));
            let ranged = lines_with_endings(drawn_node(node, prefix, is_last, compact, ranges));
            &&& plain.len() == preorder(seq![node]).len()
            &&& ranged.len() == preorder(seq![node]).len()
            &&& forall|k: int|
                0 <= k < plain.len() ==> #[trigger] ranged[k] == with_range(
                    plain[k],
                    preorder(seq![node])[k].heading,
                    ranges,
                )
        }),
        (forall|k: int|
            0 <= k < preorder(seq![node]).len() ==> range_suffix(
                (#[trigger] preorder(seq![node])[k]).heading.offset,
                ranges,
            ).len() == 0) ==> drawn_node(node, prefix, is_last, compact, ranges) == drawn_node(
            node,
            prefix,
            is_last,
            compact,
            None,
        ),
{
    let plain_text = drawn_node(node, prefix, is_last, compact, None);
    let ranged_text = drawn_node(node, prefix, is_last, compact, ranges);
    let plain = lines_with_endings(plain_text);
    let ranged = lines_with_endings(ranged_text);
    law_lines_show_the_headings(node, prefix, is_last, compact, None);
    law_lines_show_the_headings(node, prefix, is_last, compact, ranges);
    lemma_node_ranges(node, prefix, is_last, compact, ranges);
    law_lines_with_endings(plain_text);
    law_lines_with_endings(ranged_text);
    if forall|k: int|
        0 <= k < preorder(seq![node]).len() ==> range_suffix(
            (#[trigger] preorder(seq![node])[k]).heading.offset,
            ranges,
        ).len() == 0 {
        reveal_strlit("\n");
        assert forall|k: int| 0 <= k < plain.len() implies ranged[k] == plain[k] by {
            let heading = preorder(seq![node])[k].heading;
            assert(shows_heading(plain[k], prefix, heading, None));
            assert(plain[k].last() == '\n');
            assert(ranged[k] == with_range(plain[k], heading, ranges));
            assert(range_suffix(heading.offset, ranges) =~= Seq::empty());
            assert(ranged[k] =~= plain[k]);
        }
        assert(ranged =~= plain);
    }
}

proof fn lemma_node_ranges(
    node: HeadingNode,
    prefix: Seq<char>,
    is_last: bool,
    compact: bool,
    ranges: Option<LineRanges>,
)
    requires
        line_feeds(prefix) == 0,
        keep_to_their_lines(seq![node]),
    ensures
        ({
            let plain = lines_with_endings(drawn_node(node, prefix, is_last, compact, None));
            let ranged = lines_with_endings(drawn_node(node, prefix, is_last, compact, ranges));
            &&& plain.len() == preorder(seq![node]).len()
            &&& ranged.len() == plain.len()
            &&& forall|k: int|
                0 <= k < plain.len() ==> #[trigger] ranged[k] == with_range(
                    plain[k],
                    preorder(seq![node])[k].heading,
                    ranges,
                )
        }),
    decreases node, 0nat,
{
    let kids = node.children@;
    let below = prefix + continuation(is_last, compact);
    let line = heading_line(node.heading, prefix, is_last, compact, None);
    let ranged_line = heading_line(node.heading, prefix, is_last, compact, ranges);
    let rest = drawn_siblings(kids, kids.len(), below, compact, None);
    let ranged_rest = drawn_siblings(kids, kids.len(), below, compact, ranges);
    let plain = lines_with_endings(drawn_node(node, prefix, is_last, compact, None));
    let ranged = lines_with_endings(drawn_node(node, prefix, is_last, compact, ranges));
    lemma_keep_to_their_lines(node);
    lemma_branches_have_no_line_feed(is_last, compact);
    lemma_line_feeds_concat(prefix, continuation(is_last, compact));
    lemma_heading_line_lines(node.heading, prefix, is_last, compact, None);
    lemma_heading_line_lines(node.heading, prefix, is_last, compact, ranges);
    lemma_sibling_ranges(kids, kids.len(), below, compact, ranges);
    assert(kids.take(kids.len() as int) =~= kids);
    lemma_lines_concat(line, rest);
    lemma_lines_concat(ranged_line, ranged_rest);
    reveal_strlit("\n");
    assert(ranged_line =~= with_range(line, node.heading, ranges));
    assert forall|k: int| 0 <= k < plain.len() implies #[trigger] ranged[k] == with_range(
        plain[k],
        preorder(seq![node])[k].heading,
        ranges,
    ) by {
        if k > 0 {
            assert(plain[k] == lines_with_endings(rest)[k - 1]);
            assert(ranged[k] == lines_with_endings(ranged_rest)[k - 1]);
            assert(preorder(seq![node])[k] == preorder(kids)[k - 1]);
        }
    }
}

proof fn lemma_sibling_ranges(
    nodes: Seq<HeadingNode>,
    count: nat,
    prefix: Seq<char>,
    compact: bool,
    ranges: Option<LineRanges>,
)
    requires
        count <= nodes.len(),
        line_feeds(prefix) == 0,
        keep_to_their_lines(nodes),
    ensures
        ({
            let plain = lines_with_endings(drawn_siblings(nodes, count, prefix, compact, None));
            let ranged = lines_with_endings(drawn_siblings(nodes, count, prefix, compact, ranges));
            let shown = preorder(nodes.take(count as int));
            &&& plain.len() == shown.len()
            &&& ranged.len() == plain.len()
            &&& forall|k: int|
                0 <= k < plain.len() ==> #[trigger] ranged[k] == with_range(
                    plain[k],
                    shown[k].heading,
                    ranges,
                )
        }),
    decreases nodes, count,
{
    if count > 0 {
        let fewer = (count - 1) as nat;
        let node = nodes[count - 1];
        let is_last = count == nodes.len();
        let before = drawn_siblings(nodes, fewer, prefix, compact, None);
        let ranged_before = drawn_siblings(nodes, fewer, prefix, compact, ranges);
        let drawn = drawn_node(node, prefix, is_last, compact, None);
        let ranged_drawn = drawn_node(node, prefix, is_last, compact, ranges);
        lemma_sibling_keeps_to_its_lines(nodes, count);
        lemma_sibling_ranges(nodes, fewer, prefix, compact, ranges);
        lemma_node_ranges(node, prefix, is_last, compact, ranges);
        lemma_drawing_ends_a_line(nodes, fewer, prefix, compact, None);
        lemma_drawing_ends_a_line(nodes, fewer, prefix, compact, ranges);
        lemma_lines_concat(before, drawn);
        lemma_lines_concat(ranged_before, ranged_drawn);
        let plain = lines_with_endings(drawn_siblings(nodes, count, prefix, compact, None));
        let ranged = lines_with_endings(drawn_siblings(nodes, count, prefix, compact, ranges));
        let shown = preorder(nodes.take(count as int));
        let split = lines_with_endings(before).len();
        assert forall|k: int| 0 <= k < plain.len() implies #[trigger] ranged[k] == with_range(
            plain[k],
            shown[k].heading,
            ranges,
        ) by {
            if k < split {
                assert(plain[k] == lines_with_endings(before)[k]);
                assert(ranged[k] == lines_with_endings(ranged_before)[k]);
                assert(shown[k] == preorder(nodes.take(count - 1))[k]);
            } else {
                assert(plain[k] == lines_with_endings(drawn)[k - split]);
                assert(ranged[k] == lines_with_endings(ranged_drawn)[k - split]);
                assert(shown[k] == preorder(seq![node])[k - split]);
            }
        }
    } else {
        assert(nodes.take(0) =~= Seq::empty());
    }
}

} // verus!
