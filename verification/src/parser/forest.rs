//! Building the heading tree out of the flat heading list.
//!
//! The subtree of a heading reaches up to the next heading at the same or a
//! shallower level. That boundary alone fixes the whole tree: the first heading
//! of a range is a root, the headings up to its boundary form the forest of its
//! children, and the rest of the range carries on with the next root.
use crate::parser::heading::{same_forest, Heading, HeadingNode};
use vstd::prelude::*;

verus! {

/// The first position in `from..hi` with a heading at `level` or shallower, or
/// `hi` where there is none.
pub open spec fn next_at_most(hs: Seq<Heading>, from: int, hi: int, level: usize) -> int
    decreases hi - from,
{
    if from >= hi {
        hi
    } else if hs[from].level <= level {
        from
    } else {
        next_at_most(hs, from + 1, hi, level)
    }
}

/// Where, within `..hi`, the subtree of heading `lo` ends.
pub open spec fn subtree_end(hs: Seq<Heading>, lo: int, hi: int) -> int {
    next_at_most(hs, lo + 1, hi, hs[lo].level)
}

/// `nodes` is the forest of the headings `lo..hi`.
pub open spec fn is_forest(nodes: Seq<HeadingNode>, hs: Seq<Heading>, lo: int, hi: int) -> bool
    decreases hi - lo,
{
    if lo >= hi {
        nodes.len() == 0
    } else {
        proof {
            lemma_next_at_most(hs, lo + 1, hi, hs[lo].level);
        }
        let end = subtree_end(hs, lo, hi);
        &&& nodes.len() > 0
        &&& nodes[0].heading == hs[lo]
        &&& nodes[0].index == lo
        &&& is_forest(nodes[0].children@, hs, lo + 1, end)
        &&& is_forest(nodes.drop_first(), hs, end, hi)
    }
}

/// `next_at_most` lies in its range, hits, and skips no earlier hit.
pub proof fn lemma_next_at_most(hs: Seq<Heading>, from: int, hi: int, level: usize)
    requires
        from <= hi,
    ensures
        from <= next_at_most(hs, from, hi, level) <= hi,
        next_at_most(hs, from, hi, level) < hi ==> hs[next_at_most(hs, from, hi, level)].level
            <= level,
        forall|m: int|
            from <= m < next_at_most(hs, from, hi, level) ==> (#[trigger] hs[m]).level > level,
    decreases hi - from,
{
    if from < hi && hs[from].level > level {
        lemma_next_at_most(hs, from + 1, hi, level);
    }
}

/// A position that hits with no earlier hit is the one `next_at_most` gives; so
/// is `hi` where nothing hits.
pub proof fn lemma_next_at_most_unique(hs: Seq<Heading>, from: int, hi: int, level: usize, k: int)
    requires
        from <= k <= hi,
        k < hi ==> hs[k].level <= level,
        forall|m: int| from <= m < k ==> (#[trigger] hs[m]).level > level,
    ensures
        next_at_most(hs, from, hi, level) == k,
    decreases hi - from,
{
    if from < k {
        assert(hs[from].level > level);
        lemma_next_at_most_unique(hs, from + 1, hi, level, k);
    }
}

/// The first position from `from` on with a heading at `level` or shallower, or
/// the number of headings.
pub fn find_at_most(hs: &Vec<Heading>, from: usize, level: usize) -> (r: usize)
    requires
        from <= hs@.len(),
    ensures
        r == next_at_most(hs@, from as int, hs@.len() as int, level),
{
    let mut i: usize = from;
    while i < hs.len() && hs[i].level > level
        invariant
            from <= i <= hs@.len(),
            forall|m: int| from <= m < i ==> (#[trigger] hs@[m]).level > level,
        decreases hs@.len() - i,
    {
        i += 1;
    }
    proof {
        lemma_next_at_most_unique(hs@, from as int, hs@.len() as int, level, i as int);
    }
    i
}

/// Two adjacent forests join into one where the second starts at a heading no
/// deeper than any of the first.
proof fn lemma_join(
    first: Seq<HeadingNode>,
    second: Seq<HeadingNode>,
    hs: Seq<Heading>,
    lo: int,
    mid: int,
    hi: int,
)
    requires
        lo <= mid < hi,
        is_forest(first, hs, lo, mid),
        is_forest(second, hs, mid, hi),
        forall|m: int| lo <= m < mid ==> (#[trigger] hs[m]).level >= hs[mid].level,
    ensures
        is_forest(first + second, hs, lo, hi),
    decreases mid - lo,
{
    let both = first + second;
    if lo == mid {
        assert(both =~= second);
    } else {
        let end = subtree_end(hs, lo, mid);
        lemma_next_at_most(hs, lo + 1, mid, hs[lo].level);
        lemma_next_at_most_unique(hs, lo + 1, hi, hs[lo].level, end);
        lemma_join(first.drop_first(), second, hs, end, mid, hi);
        assert(both.drop_first() =~= first.drop_first() + second);
        assert(both[0] == first[0]);
    }
}

/// A node whose children are the forest of everything after it in `at..hi`, all
/// of it deeper, is the forest of `at..hi` by itself.
proof fn lemma_single(node: HeadingNode, hs: Seq<Heading>, at: int, hi: int)
    requires
        at < hi,
        node.heading == hs[at],
        node.index == at,
        is_forest(node.children@, hs, at + 1, hi),
        forall|m: int| at < m < hi ==> (#[trigger] hs[m]).level > hs[at].level,
    ensures
        is_forest(seq![node], hs, at, hi),
{
    lemma_next_at_most_unique(hs, at + 1, hi, hs[at].level, hi);
    let rest = seq![node].drop_first();
    assert(rest.len() == 0);
    assert(is_forest(rest, hs, hi, hi));
}

/// Where the part after the `j`-th open node starts: at the next open node, or
/// at `hi` after the last one.
spec fn open_at(open: Seq<HeadingNode>, j: int, hi: int) -> int {
    if j < open.len() {
        open[j].index as int
    } else {
        hi
    }
}

/// The `j`-th open node is the heading it stands for, its children hold all
/// that is closed below it, and nothing between it and its parent is shallower
/// than it.
spec fn is_open_node(open: Seq<HeadingNode>, hs: Seq<Heading>, j: int, hi: int) -> bool {
    let node = open[j];
    &&& node.index < hi
    &&& node.heading == hs[node.index as int]
    &&& is_forest(node.children@, hs, node.index + 1, open_at(open, j + 1, hi))
    &&& forall|m: int|
        (j > 0 ==> open[j - 1].index < m) && 0 <= m < node.index ==> (#[trigger] hs[m]).level
            >= node.heading.level
    &&& forall|m: int| node.index < m < hi ==> (#[trigger] hs[m]).level > node.heading.level
}

/// The state while walking: `open` is the chain of nodes, each the parent of
/// the next, that the headings before `hi` leave open; `roots` and the children
/// of the open nodes hold all that is closed.
spec fn is_open_chain(
    roots: Seq<HeadingNode>,
    open: Seq<HeadingNode>,
    hs: Seq<Heading>,
    hi: int,
) -> bool {
    &&& 0 <= hi <= hs.len()
    &&& is_forest(roots, hs, 0, open_at(open, 0, hi))
    &&& forall|i: int, j: int|
        0 <= i < j < open.len() ==> (#[trigger] open[i]).index < (#[trigger] open[j]).index
    &&& forall|j: int| 0 <= j < open.len() ==> #[trigger] is_open_node(open, hs, j, hi)
}

/// A heading that is deeper than the last open node opens below it.
proof fn lemma_open_next(
    roots: Seq<HeadingNode>,
    open: Seq<HeadingNode>,
    node: HeadingNode,
    hs: Seq<Heading>,
    at: int,
)
    requires
        is_open_chain(roots, open, hs, at),
        at < hs.len(),
        node.heading == hs[at],
        node.index == at,
        node.children@.len() == 0,
        open.len() > 0 ==> open.last().heading.level < hs[at].level,
        forall|m: int|
            (open.len() > 0 ==> open.last().index < m) && 0 <= m < at ==> (
            #[trigger] hs[m]).level >= hs[at].level,
    ensures
        is_open_chain(roots, open.push(node), hs, at + 1),
{
    let next = open.push(node);
    let last = open.len() - 1;
    assert forall|j: int| 0 <= j < next.len() implies #[trigger] is_open_node(
        next,
        hs,
        j,
        at + 1,
    ) by {
        if j < open.len() {
            assert(is_open_node(open, hs, j, at));
            assert(is_open_node(open, hs, last, at));
            assert(open_at(next, j + 1, at + 1) == open_at(open, j + 1, at));
            assert(hs[at].level > open[j].heading.level) by {
                if j < last {
                    assert(open[j].index < open[last].index);
                    assert(hs[open[last].index as int].level > open[j].heading.level);
                }
            }
        } else {
            assert(is_forest(node.children@, hs, at + 1, at + 1));
        }
    }
    assert forall|i: int, j: int| 0 <= i < j < next.len() implies (#[trigger] next[i]).index < (
    #[trigger] next[j]).index by {
        assert(is_open_node(open, hs, i, at));
    }
    assert(open_at(next, 0, at + 1) == open_at(open, 0, at));
}

/// The chain without its last node, which has become the last child of its
/// parent or the last root.
proof fn lemma_closed_last(
    roots0: Seq<HeadingNode>,
    open0: Seq<HeadingNode>,
    roots: Seq<HeadingNode>,
    open: Seq<HeadingNode>,
    hs: Seq<Heading>,
    hi: int,
)
    requires
        is_open_chain(roots0, open0, hs, hi),
        open0.len() == open.len() + 1,
        forall|j: int| 0 <= j < open.len() - 1 ==> #[trigger] open[j] == open0[j],
        open.len() == 0 ==> roots == roots0.push(open0[0]),
        open.len() > 0 ==> {
            &&& roots == roots0
            &&& open.last().index == open0[open.len() - 1].index
            &&& open.last().heading == open0[open.len() - 1].heading
            &&& open.last().children@ == open0[open.len() - 1].children@.push(open0.last())
        },
    ensures
        is_open_chain(roots, open, hs, hi),
{
    let k = open.len() as int;
    let node = open0[k];
    assert(is_open_node(open0, hs, k, hi));
    lemma_single(node, hs, node.index as int, hi);
    if k == 0 {
        assert(roots =~= roots0 + seq![node]);
        lemma_join(roots0, seq![node], hs, 0, node.index as int, hi);
    } else {
        assert(is_open_node(open0, hs, k - 1, hi));
        let kids = open0[k - 1].children@;
        assert(open[k - 1].children@ =~= kids + seq![node]);
        assert(open0[k - 1].index < open0[k].index);
        lemma_join(kids, seq![node], hs, open0[k - 1].index + 1, node.index as int, hi);
        assert forall|j: int| 0 <= j < open.len() implies #[trigger] is_open_node(
            open,
            hs,
            j,
            hi,
        ) by {
            assert(is_open_node(open0, hs, j, hi));
            if j < k - 1 {
                assert(open_at(open, j + 1, hi) == open_at(open0, j + 1, hi));
            }
        }
        assert(open_at(open, 0, hi) == open_at(open0, 0, hi));
    }
}

/// Closes the last open node: it becomes the last child of its parent, or the
/// last root.
fn close_last(
    roots: &mut Vec<HeadingNode>,
    open: &mut Vec<HeadingNode>,
    Ghost(hs): Ghost<Seq<Heading>>,
    Ghost(hi): Ghost<int>,
)
    requires
        is_open_chain(old(roots)@, old(open)@, hs, hi),
        old(open)@.len() > 0,
    ensures
        is_open_chain(final(roots)@, final(open)@, hs, hi),
        final(open)@.len() == old(open)@.len() - 1,
        forall|j: int|
            0 <= j < final(open)@.len() ==> (#[trigger] final(open)@[j]).index == old(
                open,
            )@[j].index,
{
    match open.pop() {
        None => {},
        Some(node) => match open.pop() {
            None => {
                roots.push(node);
            },
            Some(parent) => {
                let mut parent = parent;
                parent.children.push(node);
                open.push(parent);
            },
        },
    }
    proof {
        lemma_closed_last(old(roots)@, old(open)@, roots@, open@, hs, hi);
    }
}

/// The heading tree of `hs`: the roots, each with its subtree.
pub fn build_forest(hs: &Vec<Heading>) -> (r: Vec<HeadingNode>)
    ensures
        is_forest(r@, hs@, 0, hs@.len() as int),
{
    let mut roots: Vec<HeadingNode> = Vec::new();
    let mut open: Vec<HeadingNode> = Vec::new();
    let mut idx: usize = 0;
    while idx < hs.len()
        invariant
            0 <= idx <= hs@.len(),
            is_open_chain(roots@, open@, hs@, idx as int),
            idx > 0 ==> open@.len() > 0 && open@.last().index == idx - 1,
            idx == 0 ==> open@.len() == 0,
        decreases hs@.len() - idx,
    {
        let level: usize = hs[idx].level;
        // Close every open node that is not shallower than this heading.
        while open.len() > 0 && open[open.len() - 1].heading.level >= level
            invariant
                0 <= idx < hs@.len(),
                level == hs@[idx as int].level,
                is_open_chain(roots@, open@, hs@, idx as int),
                forall|m: int|
                    (open@.len() > 0 ==> open@.last().index < m) && 0 <= m < idx ==> (
                    #[trigger] hs@[m]).level >= level,
            decreases open@.len(),
        {
            let ghost last = open@.len() - 1;
            assert(is_open_node(open@, hs@, last, idx as int));
            close_last(&mut roots, &mut open, Ghost(hs@), Ghost(idx as int));
        }
        let node = HeadingNode { heading: hs[idx].clone(), children: Vec::new(), index: idx };
        proof {
            lemma_open_next(roots@, open@, node, hs@, idx as int);
        }
        open.push(node);
        idx += 1;
    }
    while open.len() > 0
        invariant
            is_open_chain(roots@, open@, hs@, hs@.len() as int),
            idx == hs@.len(),
        decreases open@.len(),
    {
        close_last(&mut roots, &mut open, Ghost(hs@), Ghost(idx as int));
    }
    roots
}

// ---------- what every such tree satisfies ----------

/// The nodes of a forest in reading order: each node before its children, and
/// its children before its next sibling.
pub open spec fn preorder(nodes: Seq<HeadingNode>) -> Seq<HeadingNode>
    decreases nodes,
{
    if nodes.len() == 0 {
        Seq::empty()
    } else {
        seq![nodes[0]] + preorder(nodes[0].children@) + preorder(nodes.drop_first())
    }
}

/// Reading the tree in order gives back the heading list: every heading occurs
/// exactly once, at its own position.
pub proof fn law_tree_keeps_every_heading(
    nodes: Seq<HeadingNode>,
    hs: Seq<Heading>,
    lo: int,
    hi: int,
)
    requires
        lo <= hi,
        is_forest(nodes, hs, lo, hi),
    ensures
        preorder(nodes).len() == hi - lo,
        forall|i: int|
            0 <= i < hi - lo ==> (#[trigger] preorder(nodes)[i]).index == lo + i && preorder(
                nodes,
            )[i].heading == hs[lo + i],
    decreases hi - lo,
{
    if lo < hi {
        let end = subtree_end(hs, lo, hi);
        lemma_next_at_most(hs, lo + 1, hi, hs[lo].level);
        law_tree_keeps_every_heading(nodes[0].children@, hs, lo + 1, end);
        law_tree_keeps_every_heading(nodes.drop_first(), hs, end, hi);
        let below = preorder(nodes[0].children@);
        let after = preorder(nodes.drop_first());
        assert forall|i: int| 0 <= i < hi - lo implies (#[trigger] preorder(nodes)[i]).index == lo
            + i && preorder(nodes)[i].heading == hs[lo + i] by {
            if 0 < i < end - lo {
                assert(preorder(nodes)[i] == below[i - 1]);
            } else if end - lo <= i {
                assert(preorder(nodes)[i] == after[i - (end - lo)]);
            }
        }
    }
}

/// Nothing that comes before a root of the forest is shallower than that root.
pub proof fn law_roots_are_shallowest(nodes: Seq<HeadingNode>, hs: Seq<Heading>, lo: int, hi: int)
    requires
        0 <= lo <= hi <= hs.len(),
        is_forest(nodes, hs, lo, hi),
    ensures
        forall|c: int|
            0 <= c < nodes.len() ==> lo <= (#[trigger] nodes[c]).index < hi && nodes[c].heading
                == hs[nodes[c].index as int],
        forall|c: int, m: int|
            0 <= c < nodes.len() && lo <= m < nodes[c].index ==> (#[trigger] hs[m]).level >= (
            #[trigger] nodes[c]).heading.level,
    decreases hi - lo,
{
    if lo < hi {
        let end = subtree_end(hs, lo, hi);
        let rest = nodes.drop_first();
        lemma_next_at_most(hs, lo + 1, hi, hs[lo].level);
        law_roots_are_shallowest(rest, hs, end, hi);
        assert forall|c: int|
            0 <= c < nodes.len() implies lo <= (#[trigger] nodes[c]).index < hi && nodes[c].heading
            == hs[nodes[c].index as int] by {
            if c > 0 {
                assert(nodes[c] == rest[c - 1]);
            }
        }
        assert forall|c: int, m: int|
            0 <= c < nodes.len() && lo <= m < nodes[c].index implies (#[trigger] hs[m]).level >= (
        #[trigger] nodes[c]).heading.level by {
            assert(nodes[c] == rest[c - 1]);
            if m < end {
                assert(hs[end].level >= rest[c - 1].heading.level);
            }
        }
    }
}

/// The parent of a heading is the nearest heading before it that is shallower:
/// every child is deeper than its node, and nothing between the two is
/// shallower than the child.
pub proof fn law_parent_is_nearest_shallower(
    nodes: Seq<HeadingNode>,
    hs: Seq<Heading>,
    lo: int,
    hi: int,
)
    requires
        0 <= lo <= hi <= hs.len(),
        is_forest(nodes, hs, lo, hi),
    ensures
        forall|i: int, c: int|
            0 <= i < preorder(nodes).len() && 0 <= c < preorder(nodes)[i].children@.len()
                ==> is_nearest_shallower(
                hs,
                preorder(nodes)[i],
                #[trigger] preorder(nodes)[i].children@[c],
            ),
    decreases hi - lo,
{
    if lo < hi {
        let end = subtree_end(hs, lo, hi);
        let kids = nodes[0].children@;
        let rest = nodes.drop_first();
        lemma_next_at_most(hs, lo + 1, hi, hs[lo].level);
        law_roots_are_shallowest(kids, hs, lo + 1, end);
        law_parent_is_nearest_shallower(kids, hs, lo + 1, end);
        law_parent_is_nearest_shallower(rest, hs, end, hi);
        law_tree_keeps_every_heading(kids, hs, lo + 1, end);
        let below = preorder(kids);
        let after = preorder(rest);
        assert forall|i: int, c: int|
            0 <= i < preorder(nodes).len() && 0 <= c < preorder(nodes)[i].children@.len() implies
            is_nearest_shallower(
            hs,
            preorder(nodes)[i],
            #[trigger] preorder(nodes)[i].children@[c],
        ) by {
            if i == 0 {
                assert(preorder(nodes)[i] == nodes[0]);
                assert(kids[c].heading == hs[kids[c].index as int]);
            } else if i < end - lo {
                assert(preorder(nodes)[i] == below[i - 1]);
            } else {
                assert(preorder(nodes)[i] == after[i - (end - lo)]);
            }
        }
    }
}

/// `child` comes after `node` and is deeper, and nothing between the two is
/// shallower than `child`.
pub open spec fn is_nearest_shallower(
    hs: Seq<Heading>,
    node: HeadingNode,
    child: HeadingNode,
) -> bool {
    &&& node.index < child.index < hs.len()
    &&& node.heading.level < child.heading.level
    &&& forall|m: int|
        node.index < m < child.index ==> (#[trigger] hs[m]).level >= child.heading.level
}

/// The subtree of a node holds exactly the headings after it up to the next one
/// at the same or a shallower level.
pub proof fn law_subtree_reaches_to_its_boundary(
    nodes: Seq<HeadingNode>,
    hs: Seq<Heading>,
    lo: int,
    hi: int,
)
    requires
        lo <= hi,
        is_forest(nodes, hs, lo, hi),
    ensures
        forall|i: int|
            0 <= i < hi - lo ==> lo + i + 1 + preorder(
                (#[trigger] preorder(nodes)[i]).children@,
            ).len() == subtree_end(hs, lo + i, hi),
    decreases hi - lo,
{
    if lo < hi {
        let end = subtree_end(hs, lo, hi);
        let kids = nodes[0].children@;
        let rest = nodes.drop_first();
        lemma_next_at_most(hs, lo + 1, hi, hs[lo].level);
        law_tree_keeps_every_heading(nodes, hs, lo, hi);
        law_tree_keeps_every_heading(kids, hs, lo + 1, end);
        law_subtree_reaches_to_its_boundary(kids, hs, lo + 1, end);
        law_subtree_reaches_to_its_boundary(rest, hs, end, hi);
        let below = preorder(kids);
        let after = preorder(rest);
        assert forall|i: int| 0 <= i < hi - lo implies lo + i + 1 + preorder(
            (#[trigger] preorder(nodes)[i]).children@,
        ).len() == subtree_end(hs, lo + i, hi) by {
            if i == 0 {
                assert(preorder(nodes)[i] == nodes[0]);
            } else if i < end - lo {
                assert(preorder(nodes)[i] == below[i - 1]);
                // The boundary of the parent bounds the child, too.
                let inner = subtree_end(hs, lo + i, end);
                lemma_next_at_most(hs, lo + i + 1, end, hs[lo + i].level);
                lemma_next_at_most_unique(hs, lo + i + 1, hi, hs[lo + i].level, inner);
            } else {
                assert(preorder(nodes)[i] == after[i - (end - lo)]);
            }
        }
    }
}

/// The tree is fixed by the heading list: two forests of the same range read
/// the same.
pub proof fn law_tree_is_unique(
    a: Seq<HeadingNode>,
    b: Seq<HeadingNode>,
    hs: Seq<Heading>,
    lo: int,
    hi: int,
)
    requires
        is_forest(a, hs, lo, hi),
        is_forest(b, hs, lo, hi),
    ensures
        same_forest(a, b),
    decreases hi - lo,
{
    if lo < hi {
        let end = subtree_end(hs, lo, hi);
        lemma_next_at_most(hs, lo + 1, hi, hs[lo].level);
        law_tree_is_unique(a[0].children@, b[0].children@, hs, lo + 1, end);
        law_tree_is_unique(a.drop_first(), b.drop_first(), hs, end, hi);
    }
}

} // verus!
