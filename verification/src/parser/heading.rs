//! Headings and the nodes of the heading tree.
use vstd::prelude::*;

verus! {

/// A heading in a markdown document: its level, text content and byte position.
#[derive(Debug)]
pub struct Heading {
    /// Heading level (1 for #, 2 for ##, etc.)
    pub level: usize,
    /// Heading text content (stripped of inline markdown formatting)
    pub text: String,
    /// Byte offset where the heading starts in the source document
    pub offset: usize,
    /// Byte length of the entire heading construct, as reported by the parser.
    ///
    /// For ATX headings this spans the marker line (including its line
    /// terminator when present); for setext headings it spans both the text
    /// line and the underline. `offset + source_len` therefore lands at the
    /// first byte of the section body, even across CRLF or setext underlines.
    pub source_len: usize,
}

impl Clone for Heading {
    fn clone(&self) -> (r: Self)
        ensures
            r == *self,
    {
        Heading {
            level: self.level,
            text: self.text.clone(),
            offset: self.offset,
            source_len: self.source_len,
        }
    }
}

/// A node in the heading tree: a heading and its child headings.
#[derive(Debug)]
pub struct HeadingNode {
    pub heading: Heading,
    pub children: Vec<HeadingNode>,
    /// Position of the heading in the document's heading list.
    pub index: usize,
}

/// The two forests hold equal headings and indices in the same shape.
pub open spec fn same_forest(a: Seq<HeadingNode>, b: Seq<HeadingNode>) -> bool
    decreases a,
{
    if a.len() == 0 || b.len() == 0 {
        a.len() == b.len()
    } else {
        &&& a[0].heading == b[0].heading
        &&& a[0].index == b[0].index
        &&& same_forest(a[0].children@, b[0].children@)
        &&& same_forest(a.drop_first(), b.drop_first())
    }
}

/// Appending equal nodes to equal forests gives equal forests.
proof fn lemma_same_forest_push(
    a: Seq<HeadingNode>,
    b: Seq<HeadingNode>,
    x: HeadingNode,
    y: HeadingNode,
)
    requires
        same_forest(a, b),
        same_forest(seq![x], seq![y]),
    ensures
        same_forest(a.push(x), b.push(y)),
    decreases a.len(),
{
    if a.len() == 0 {
        assert(a.push(x) =~= seq![x]);
        assert(b.push(y) =~= seq![y]);
    } else {
        lemma_same_forest_push(a.drop_first(), b.drop_first(), x, y);
        assert(a.push(x).drop_first() =~= a.drop_first().push(x));
        assert(b.push(y).drop_first() =~= b.drop_first().push(y));
    }
}

impl Clone for HeadingNode {
    fn clone(&self) -> (r: Self)
        ensures
            same_forest(seq![*self], seq![r]),
        decreases self,
    {
        let mut children: Vec<HeadingNode> = Vec::new();
        let mut i: usize = 0;
        while i < self.children.len()
            invariant
                0 <= i <= self.children@.len(),
                same_forest(self.children@.take(i as int), children@),
            decreases self.children@.len() - i,
        {
            let child = self.children[i].clone();
            proof {
                lemma_same_forest_push(
                    self.children@.take(i as int),
                    children@,
                    self.children@[i as int],
                    child,
                );
                assert(self.children@.take(i + 1) =~= self.children@.take(i as int).push(
                    self.children@[i as int],
                ));
            }
            children.push(child);
            i += 1;
        }
        let r = HeadingNode { heading: self.heading.clone(), children, index: self.index };
        proof {
            assert(self.children@.take(i as int) =~= self.children@);
            assert(seq![*self].drop_first() =~= Seq::empty());
            assert(seq![r].drop_first() =~= Seq::empty());
            assert(same_forest(seq![*self].drop_first(), seq![r].drop_first()));
        }
        r
    }
}

} // verus!
