//! What a terminal can display.
use vstd::prelude::*;

verus! {

/// The colors that a terminal can display.
#[derive(Debug, Clone, Copy, PartialEq, Eq, Structural)]
pub enum ColorMode {
    /// 24-bit color.
    Rgb,
    /// The 256-color palette.
    Indexed256,
}

} // verus!
