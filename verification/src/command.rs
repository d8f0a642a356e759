//! Commands of the editor's undo log, addressed like operations.

use vstd::prelude::*;
use vstd::string::*;
use vstd::utf8::*;

verus! {

/// An insertion or a removal of a string.
#[derive(PartialEq, Eq, Debug)]
pub enum Command {
    /// Insert a string at an offset.
    Insert(usize, String),
    /// Remove the bytes between two offsets, both included; the string is
    /// what was removed.
    Remove(usize, usize, String),
}

impl Clone for Command {
    fn clone(&self) -> (r: Command)
        ensures
            r == *self,
    {
        match self {
            Command::Insert(index, text) => Command::Insert(*index, text.clone()),
            Command::Remove(start, end, text) => Command::Remove(*start, *end, text.clone()),
        }
    }
}

impl Command {
    /// The command that undoes this one.
    pub open spec fn inverted(self) -> Command {
        match self {
            Command::Insert(index, text) => Command::Remove(
                index,
                (index + encode_utf8(text@).len() - 1) as usize,
                text,
            ),
            Command::Remove(start, _, text) => Command::Insert(start, text),
        }
    }

    /// The last offset of an inserted string is an offset.
    pub open spec fn invertible(self) -> bool {
        self matches Command::Insert(index, text) ==> 1 <= index + encode_utf8(text@).len()
            <= usize::MAX + 1
    }

    /// The command that undoes this one: the removal of what was inserted,
    /// or the insertion of what was removed.
    pub fn inverse(self) -> (inv: Command)
        requires
            self.invertible(),
        ensures
            inv == self.inverted(),
    {
        match self {
            Command::Insert(index, text) => {
                let n = text.as_str().as_bytes().len();
                let end = if index == 0 {
                    n - 1
                } else {
                    index - 1 + n
                };
                Command::Remove(index, end, text)
            },
            Command::Remove(start, _, text) => Command::Insert(start, text),
        }
    }
}

} // verus!
