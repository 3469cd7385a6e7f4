//! Parts of the structured document output.
use vstd::prelude::*;

verus! {

/// How the cells of a table column are aligned.
#[derive(Debug, Clone, Copy, PartialEq, Eq, Structural)]
pub enum Alignment {
    Left,
    Center,
    Right,
    /// The table does not say.
    Unset,
}

} // verus!
