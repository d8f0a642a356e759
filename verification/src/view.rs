//! Events that a terminal view hands to the editor.

use vstd::prelude::*;

verus! {

/// A key press as the view reports it.
#[derive(Copy, Clone, PartialEq, Eq, Debug, Structural)]
pub enum Event {
    Backspace,
    Char(char),
}

} // verus!
