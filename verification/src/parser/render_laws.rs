//! What the drawing of a heading tree shows, character by character.
use crate::parser::forest::preorder;
use crate::parser::heading::HeadingNode;
use crate::parser::lines::{
    lemma_line_feeds_concat, lemma_lines_concat, line_feeds, lines_with_endings,
};
use crate::parser::render::{
    connector, continuation, drawn_node, drawn_siblings, heading_line, keep_to_their_lines,
    lemma_branches_have_no_line_feed, lemma_drawing_ends_a_line, lemma_heading_line_lines,
    lemma_keep_to_their_lines, lemma_preorder_concat, lemma_sibling_keeps_to_its_lines,
    range_suffix, LineRanges,
};
use crate::text::{decimal, repeated};
use vstd::prelude::*;

verus! {

// ---------- places in the tree ----------

/// A node of a tree and its place: whether it is the last of its siblings, and
/// the same of each node above it, from the root down.
pub struct Place {
    pub node: HeadingNode,
    pub is_last: bool,
    pub above: Seq<bool>,
}

/// The places of a node and of everything below it, in reading order.
pub open spec fn places(node: HeadingNode, is_last: bool, above: Seq<bool>) -> Seq<Place>
    decreases node, 0nat,
{
    seq![Place { node, is_last, above }] + sibling_places(
        node.children@,
        node.children@.len(),
        above.push(is_last),
    )
}

/// The places of the first `count` siblings and of everything below them.
pub open spec fn sibling_places(nodes: Seq<HeadingNode>, count: nat, above: Seq<bool>) -> Seq<Place>
    decreases nodes, count,
{
    if count == 0 || count > nodes.len() {
        Seq::empty()
    } else {
        sibling_places(nodes, (count - 1) as nat, above) + places(
            nodes[count - 1],
            count == nodes.len(),
            above,
        )
    }
}

/// The places are those of the nodes of the tree, in reading order.
pub proof fn law_places_are_those_of_the_nodes(node: HeadingNode, is_last: bool, above: Seq<bool>)
    ensures
        places(node, is_last, above).len() == preorder(seq![node]).len(),
        forall|k: int|
            0 <= k < preorder(seq![node]).len() ==> (#[trigger] places(
                node,
                is_last,
                above,
            )[k]).node == preorder(seq![node])[k],
    decreases node, 0nat,
{
    let kids = node.children@;
    let deeper = above.push(is_last);
    assert(seq![node].drop_first() =~= Seq::empty());
    assert(preorder(seq![node].drop_first()) =~= Seq::empty());
    assert(preorder(seq![node]) =~= seq![node] + preorder(kids));
    lemma_sibling_places(kids, kids.len(), deeper);
    assert(kids.take(kids.len() as int) =~= kids);
    assert forall|k: int| 0 <= k < preorder(seq![node]).len() implies (#[trigger] places(
        node,
        is_last,
        above,
    )[k]).node == preorder(seq![node])[k] by {
        if k > 0 {
            assert(places(node, is_last, above)[k] == sibling_places(
                kids,
                kids.len(),
                deeper,
            )[k - 1]);
        }
    }
}

proof fn lemma_sibling_places(nodes: Seq<HeadingNode>, count: nat, above: Seq<bool>)
    requires
        count <= nodes.len(),
    ensures
        sibling_places(nodes, count, above).len() == preorder(nodes.take(count as int)).len(),
        forall|k: int|
            0 <= k < preorder(nodes.take(count as int)).len() ==> (#[trigger] sibling_places(
                nodes,
                count,
                above,
            )[k]).node == preorder(nodes.take(count as int))[k],
    decreases nodes, count,
{
    if count > 0 {
        let fewer = (count - 1) as nat;
        let node = nodes[count - 1];
        let before = nodes.take(count - 1);
        let is_last = count == nodes.len();
        lemma_sibling_places(nodes, fewer, above);
        law_places_are_those_of_the_nodes(node, is_last, above);
        lemma_preorder_concat(before, seq![node]);
        assert(nodes.take(count as int) =~= before + seq![node]);
        let split = preorder(before).len();
        assert forall|k: int| 0 <= k < preorder(nodes.take(count as int)).len() implies (
        #[trigger] sibling_places(nodes, count, above)[k]).node == preorder(
            nodes.take(count as int),
        )[k] by {
            if k < split {
                assert(sibling_places(nodes, count, above)[k] == sibling_places(
                    nodes,
                    fewer,
                    above,
                )[k]);
            } else {
                assert(sibling_places(nodes, count, above)[k] == places(node, is_last, above)[k
                    - split]);
            }
        }
    } else {
        assert(nodes.take(0) =~= Seq::empty());
    }
}

// ---------- indentation ----------

/// The number of columns for each level of the tree.
pub open spec fn indent_width(compact: bool) -> nat {
    if compact {
        3
    } else {
        4
    }
}

/// The columns that stand for the nodes above: a rule below a node with a later
/// sibling, space below a last one.
pub open spec fn is_indentation(columns: Seq<char>, above: Seq<bool>, compact: bool) -> bool {
    &&& columns.len() == indent_width(compact) * above.len()
    &&& forall|level: int, c: int|
        0 <= level < above.len() && 0 <= c < indent_width(compact) ==> #[trigger] column_char(
            columns,
            level,
            c,
            compact,
        ) == if c == 0 && !above[level] {
            '│'
        } else {
            ' '
        }
}

/// The character in column `c` of the columns for `level`.
pub open spec fn column_char(columns: Seq<char>, level: int, c: int, compact: bool) -> char {
    columns[indent_width(compact) * level + c]
}

/// The branch in front of a heading: a corner for the last of its siblings, a
/// fork for any other, then a rule, to which the compact style adds more rule and
/// the spaced style a space.
pub open spec fn branch(is_last: bool, compact: bool) -> Seq<char> {
    seq![
        if is_last {
            '└'
        } else {
            '├'
        },
        '─',
        if compact {
            '─'
        } else {
            ' '
        },
    ]
}

/// The line shows the node at its place: behind the prefix the columns for the
/// nodes above, the branch, one `#` per level, a space, the text and the line
/// range.
pub open spec fn shows_place(
    line: Seq<char>,
    prefix: Seq<char>,
    place: Place,
    compact: bool,
    ranges: Option<LineRanges>,
) -> bool {
    exists|columns: Seq<char>|
        is_indentation(columns, place.above, compact) && line == #[trigger] (prefix + columns)
            + branch(place.is_last, compact) + repeated(
            '#',
            place.node.heading.level as nat,
        ) + seq![' '] + place.node.heading.text@ + range_suffix(
            place.node.heading.offset,
            ranges,
        ) + seq!['\n']
}

/// The columns for the nodes above, written out.
spec fn columns_of(above: Seq<bool>, compact: bool) -> Seq<char>
    decreases above.len(),
{
    if above.len() == 0 {
        Seq::empty()
    } else {
        columns_of(above.drop_last(), compact) + continuation(above.last(), compact)
    }
}

proof fn lemma_continuation(is_last: bool, compact: bool)
    ensures
        continuation(is_last, compact).len() == indent_width(compact),
        forall|c: int|
            0 <= c < indent_width(compact) ==> #[trigger] continuation(is_last, compact)[c]
                == if c == 0 && !is_last {
                '│'
            } else {
                ' '
            },
        connector(is_last, compact) == branch(is_last, compact),
{
    reveal_strlit("└──");
    reveal_strlit("├──");
    reveal_strlit("└─ ");
    reveal_strlit("├─ ");
    reveal_strlit("   ");
    reveal_strlit("│  ");
    reveal_strlit("    ");
    reveal_strlit("│   ");
    assert(connector(is_last, compact) =~= branch(is_last, compact));
}

proof fn lemma_columns(above: Seq<bool>, compact: bool)
    ensures
        is_indentation(columns_of(above, compact), above, compact),
    decreases above.len(),
{
    let w = indent_width(compact) as int;
    if above.len() > 0 {
        let before = above.drop_last();
        let columns = columns_of(above, compact);
        let inner = columns_of(before, compact);
        lemma_columns(before, compact);
        lemma_continuation(above.last(), compact);
        let n = before.len() as int;
        assert(w * (n + 1) == w * n + w) by (nonlinear_arith);
        assert forall|level: int, c: int|
            0 <= level < above.len() && 0 <= c < w implies #[trigger] column_char(
            columns,
            level,
            c,
            compact,
        ) == if c == 0 && !above[level] {
            '│'
        } else {
            ' '
        } by {
            if level < n {
                assert(w * level + w <= w * n) by (nonlinear_arith)
                    requires
                        level + 1 <= n,
                        w > 0,
                ;
                assert(0 <= w * level) by (nonlinear_arith)
                    requires
                        0 <= level,
                        w > 0,
                ;
                assert(column_char(inner, level, c, compact) == column_char(
                    columns,
                    level,
                    c,
                    compact,
                ));
                assert(before[level] == above[level]);
            } else {
                assert(columns[w * n + c] == continuation(above.last(), compact)[c]);
            }
        }
    } else {
        assert(w * 0 == 0);
    }
}

proof fn lemma_columns_have_no_line_feed(above: Seq<bool>, compact: bool)
    ensures
        line_feeds(columns_of(above, compact)) == 0,
    decreases above.len(),
{
    if above.len() > 0 {
        lemma_columns_have_no_line_feed(above.drop_last(), compact);
        lemma_branches_have_no_line_feed(above.last(), compact);
        lemma_line_feeds_concat(
            columns_of(above.drop_last(), compact),
            continuation(above.last(), compact),
        );
    }
}

proof fn lemma_heading_line_shows_its_place(
    prefix: Seq<char>,
    place: Place,
    compact: bool,
    ranges: Option<LineRanges>,
)
    ensures
        shows_place(
            heading_line(
                place.node.heading,
                prefix + columns_of(place.above, compact),
                place.is_last,
                compact,
                ranges,
            ),
            prefix,
            place,
            compact,
            ranges,
        ),
{
    let columns = columns_of(place.above, compact);
    let heading = place.node.heading;
    lemma_columns(place.above, compact);
    lemma_continuation(place.is_last, compact);
    reveal_strlit(" ");
    reveal_strlit("\n");
    assert(" "@ =~= seq![' ']);
    assert("\n"@ =~= seq!['\n']);
    assert(heading_line(heading, prefix + columns, place.is_last, compact, ranges) =~= (prefix
        + columns) + branch(place.is_last, compact) + repeated('#', heading.level as nat) + seq![
        ' ',
    ] + heading.text@ + range_suffix(heading.offset, ranges) + seq!['\n']);
}

/// The drawing shows the tree: it has one line for each node, in reading order,
/// and the indentation and the branch of a line say where in the tree its node
/// stands.
pub proof fn law_drawing_shows_the_tree(
    node: HeadingNode,
    prefix: Seq<char>,
    is_last: bool,
    compact: bool,
    ranges: Option<LineRanges>,
)
    requires
        line_feeds(prefix) == 0,
        keep_to_their_lines(seq![node]),
    ensures
        ({
            let lines = lines_with_endings(drawn_node(node, prefix, is_last, compact, ranges));
            let shown = places(node, is_last, Seq::empty());
            &&& lines.len() == shown.len()
            &&& forall|k: int|
                0 <= k < lines.len() ==> shows_place(
                    #[trigger] lines[k],
                    prefix,
                    shown[k],
                    compact,
                    ranges,
                )
        }),
{
    assert(prefix + columns_of(Seq::empty(), compact) =~= prefix);
    lemma_node_shows_the_tree(node, prefix, is_last, Seq::empty(), compact, ranges);
}

proof fn lemma_node_shows_the_tree(
    node: HeadingNode,
    prefix: Seq<char>,
    is_last: bool,
    above: Seq<bool>,
    compact: bool,
    ranges: Option<LineRanges>,
)
    requires
        line_feeds(prefix) == 0,
        keep_to_their_lines(seq![node]),
    ensures
        ({
            let inner = prefix + columns_of(above, compact);
            let lines = lines_with_endings(drawn_node(node, inner, is_last, compact, ranges));
            let shown = places(node, is_last, above);
            &&& lines.len() == shown.len()
            &&& forall|k: int|
                0 <= k < lines.len() ==> shows_place(
                    #[trigger] lines[k],
                    prefix,
                    shown[k],
                    compact,
                    ranges,
                )
        }),
    decreases node, 0nat,
{
    let inner = prefix + columns_of(above, compact);
    let deeper = above.push(is_last);
    let below = inner + continuation(is_last, compact);
    let kids = node.children@;
    let line = heading_line(node.heading, inner, is_last, compact, ranges);
    let rest = drawn_siblings(kids, kids.len(), below, compact, ranges);
    let lines = lines_with_endings(drawn_node(node, inner, is_last, compact, ranges));
    let shown = places(node, is_last, above);
    let place = Place { node, is_last, above };
    lemma_keep_to_their_lines(node);
    lemma_columns_have_no_line_feed(above, compact);
    lemma_line_feeds_concat(prefix, columns_of(above, compact));
    lemma_heading_line_lines(node.heading, inner, is_last, compact, ranges);
    lemma_heading_line_shows_its_place(prefix, place, compact, ranges);
    assert(deeper.drop_last() =~= above);
    assert(below =~= prefix + columns_of(deeper, compact));
    lemma_siblings_show_the_tree(kids, kids.len(), prefix, deeper, compact, ranges);
    lemma_lines_concat(line, rest);
    assert forall|k: int| 0 <= k < lines.len() implies shows_place(
        #[trigger] lines[k],
        prefix,
        shown[k],
        compact,
        ranges,
    ) by {
        if k > 0 {
            assert(lines[k] == lines_with_endings(rest)[k - 1]);
            assert(shown[k] == sibling_places(kids, kids.len(), deeper)[k - 1]);
        }
    }
}

proof fn lemma_siblings_show_the_tree(
    nodes: Seq<HeadingNode>,
    count: nat,
    prefix: Seq<char>,
    above: Seq<bool>,
    compact: bool,
    ranges: Option<LineRanges>,
)
    requires
        count <= nodes.len(),
        line_feeds(prefix) == 0,
        keep_to_their_lines(nodes),
    ensures
        ({
            let inner = prefix + columns_of(above, compact);
            let lines = lines_with_endings(drawn_siblings(nodes, count, inner, compact, ranges));
            let shown = sibling_places(nodes, count, above);
            &&& lines.len() == shown.len()
            &&& forall|k: int|
                0 <= k < lines.len() ==> shows_place(
                    #[trigger] lines[k],
                    prefix,
                    shown[k],
                    compact,
                    ranges,
                )
        }),
    decreases nodes, count,
{
    if count > 0 {
        let inner = prefix + columns_of(above, compact);
        let fewer = (count - 1) as nat;
        let node = nodes[count - 1];
        let is_last = count == nodes.len();
        let before = drawn_siblings(nodes, fewer, inner, compact, ranges);
        let drawn = drawn_node(node, inner, is_last, compact, ranges);
        lemma_sibling_keeps_to_its_lines(nodes, count);
        lemma_siblings_show_the_tree(nodes, fewer, prefix, above, compact, ranges);
        lemma_node_shows_the_tree(node, prefix, is_last, above, compact, ranges);
        lemma_drawing_ends_a_line(nodes, fewer, inner, compact, ranges);
        lemma_lines_concat(before, drawn);
        let lines = lines_with_endings(drawn_siblings(nodes, count, inner, compact, ranges));
        let shown = sibling_places(nodes, count, above);
        let split = lines_with_endings(before).len();
        assert forall|k: int| 0 <= k < lines.len() implies shows_place(
            #[trigger] lines[k],
            prefix,
            shown[k],
            compact,
            ranges,
        ) by {
            if k < split {
                assert(lines[k] == lines_with_endings(before)[k]);
                assert(shown[k] == sibling_places(nodes, fewer, above)[k]);
            } else {
                assert(lines[k] == lines_with_endings(drawn)[k - split]);
                assert(shown[k] == places(node, is_last, above)[k - split]);
            }
        }
    }
}

/// The parts one after the other.
pub open spec fn concatenated(parts: Seq<Seq<char>>) -> Seq<char>
    decreases parts.len(),
{
    if parts.len() == 0 {
        Seq::empty()
    } else {
        concatenated(parts.drop_last()) + parts.last()
    }
}

proof fn lemma_concatenated_add(a: Seq<Seq<char>>, b: Seq<Seq<char>>)
    ensures
        concatenated(a + b) == concatenated(a) + concatenated(b),
    decreases b.len(),
{
    if b.len() == 0 {
        assert(a + b =~= a);
        assert(concatenated(a) + concatenated(b) =~= concatenated(a));
    } else {
        lemma_concatenated_add(a, b.drop_last());
        assert((a + b).drop_last() =~= a + b.drop_last());
        assert(concatenated(a + b) =~= concatenated(a) + concatenated(b));
    }
}

/// Whatever the prefix and the texts hold, line feeds included, the drawing is
/// made of one part for each node, in reading order, and nothing else.
pub proof fn law_drawing_has_a_part_for_each_node(
    node: HeadingNode,
    prefix: Seq<char>,
    is_last: bool,
    compact: bool,
    ranges: Option<LineRanges>,
) -> (parts: Seq<Seq<char>>)
    ensures
        drawn_node(node, prefix, is_last, compact, ranges) == concatenated(parts),
        parts.len() == places(node, is_last, Seq::empty()).len(),
        forall|k: int|
            0 <= k < parts.len() ==> shows_place(
                #[trigger] parts[k],
                prefix,
                places(node, is_last, Seq::empty())[k],
                compact,
                ranges,
            ),
{
    assert(prefix + columns_of(Seq::empty(), compact) =~= prefix);
    lemma_node_parts(node, prefix, is_last, Seq::empty(), compact, ranges)
}

proof fn lemma_node_parts(
    node: HeadingNode,
    prefix: Seq<char>,
    is_last: bool,
    above: Seq<bool>,
    compact: bool,
    ranges: Option<LineRanges>,
) -> (parts: Seq<Seq<char>>)
    ensures
        drawn_node(node, prefix + columns_of(above, compact), is_last, compact, ranges)
            == concatenated(parts),
        parts.len() == places(node, is_last, above).len(),
        forall|k: int|
            0 <= k < parts.len() ==> shows_place(
                #[trigger] parts[k],
                prefix,
                places(node, is_last, above)[k],
                compact,
                ranges,
            ),
    decreases node, 0nat,
{
    let inner = prefix + columns_of(above, compact);
    let deeper = above.push(is_last);
    let kids = node.children@;
    let line = heading_line(node.heading, inner, is_last, compact, ranges);
    let place = Place { node, is_last, above };
    lemma_heading_line_shows_its_place(prefix, place, compact, ranges);
    assert(deeper.drop_last() =~= above);
    assert(inner + continuation(is_last, compact) =~= prefix + columns_of(deeper, compact));
    let rest = lemma_sibling_parts(kids, kids.len(), prefix, deeper, compact, ranges);
    let parts = seq![line] + rest;
    lemma_concatenated_add(seq![line], rest);
    assert(seq![line].drop_last() =~= Seq::empty());
    assert(concatenated(seq![line].drop_last()) =~= Seq::empty());
    assert(concatenated(seq![line]) =~= line);
    let shown = places(node, is_last, above);
    assert forall|k: int| 0 <= k < parts.len() implies shows_place(
        #[trigger] parts[k],
        prefix,
        shown[k],
        compact,
        ranges,
    ) by {
        if k > 0 {
            assert(parts[k] == rest[k - 1]);
            assert(shown[k] == sibling_places(kids, kids.len(), deeper)[k - 1]);
        }
    }
    parts
}

proof fn lemma_sibling_parts(
    nodes: Seq<HeadingNode>,
    count: nat,
    prefix: Seq<char>,
    above: Seq<bool>,
    compact: bool,
    ranges: Option<LineRanges>,
) -> (parts: Seq<Seq<char>>)
    requires
        count <= nodes.len(),
    ensures
        drawn_siblings(nodes, count, prefix + columns_of(above, compact), compact, ranges)
            == concatenated(parts),
        parts.len() == sibling_places(nodes, count, above).len(),
        forall|k: int|
            0 <= k < parts.len() ==> shows_place(
                #[trigger] parts[k],
                prefix,
                sibling_places(nodes, count, above)[k],
                compact,
                ranges,
            ),
    decreases nodes, count,
{
    if count == 0 {
        Seq::empty()
    } else {
        let fewer = (count - 1) as nat;
        let node = nodes[count - 1];
        let is_last = count == nodes.len();
        let before = lemma_sibling_parts(nodes, fewer, prefix, above, compact, ranges);
        let drawn = lemma_node_parts(node, prefix, is_last, above, compact, ranges);
        let parts = before + drawn;
        lemma_concatenated_add(before, drawn);
        let shown = sibling_places(nodes, count, above);
        assert forall|k: int| 0 <= k < parts.len() implies shows_place(
            #[trigger] parts[k],
            prefix,
            shown[k],
            compact,
            ranges,
        ) by {
            if k < before.len() {
                assert(parts[k] == before[k]);
                assert(shown[k] == sibling_places(nodes, fewer, above)[k]);
            } else {
                assert(parts[k] == drawn[k - before.len()]);
                assert(shown[k] == places(node, is_last, above)[k - before.len()]);
            }
        }
        parts
    }
}

// ---------- line ranges ----------

/// The number that decimal digits make.
pub open spec fn value_of(digits: Seq<char>) -> int
    decreases digits.len(),
{
    if digits.len() == 0 {
        0
    } else {
        value_of(digits.drop_last()) * 10 + (digits.last() as int - '0' as int)
    }
}

/// The text is the number `n` in decimal, without a leading zero.
pub open spec fn is_number(text: Seq<char>, n: int) -> bool {
    &&& text.len() > 0
    &&& forall|i: int| 0 <= i < text.len() ==> '0' <= #[trigger] text[i] <= '9'
    &&& value_of(text) == n
    &&& text.len() > 1 ==> text[0] != '0'
}

proof fn lemma_decimal_is_number(n: nat)
    ensures
        is_number(decimal(n), n as int),
        n > 0 ==> decimal(n)[0] != '0',
    decreases n,
{
    let text = decimal(n);
    if n < 10 {
        assert(text.drop_last() =~= Seq::empty());
        assert(value_of(text.drop_last()) == 0);
    } else {
        lemma_decimal_is_number(n / 10);
        assert(text.drop_last() =~= decimal(n / 10));
        assert forall|i: int| 0 <= i < text.len() implies '0' <= #[trigger] text[i] <= '9' by {
            if i < text.len() - 1 {
                assert(text[i] == decimal(n / 10)[i]);
            }
        }
        assert(text[0] == decimal(n / 10)[0]);
    }
}

/// The line range of a heading is written as its first and its last line in
/// brackets; nothing is written where there is none.
pub proof fn law_range_gives_first_and_last_line(offset: usize, ranges: LineRanges)
    ensures
        !ranges.contains_key(offset) ==> range_suffix(offset, Some(ranges)).len() == 0,
        range_suffix(offset, None).len() == 0,
        ranges.contains_key(offset) ==> exists|first: Seq<char>, last: Seq<char>|
            #[trigger] is_number(first, ranges[offset].0 as int) && #[trigger] is_number(
                last,
                ranges[offset].1 as int,
            ) && range_suffix(offset, Some(ranges)) == seq![' ', '['] + first + seq!['-'] + last
                + seq![']'],
{
    if ranges.contains_key(offset) {
        let first = decimal(ranges[offset].0 as nat);
        let last = decimal(ranges[offset].1 as nat);
        lemma_decimal_is_number(ranges[offset].0 as nat);
        lemma_decimal_is_number(ranges[offset].1 as nat);
        reveal_strlit(" [");
        reveal_strlit("-");
        reveal_strlit("]");
        assert(range_suffix(offset, Some(ranges)) =~= seq![' ', '['] + first + seq!['-'] + last
            + seq![']']);
    }
}

} // verus!
