//! A buffer together with what the editor tracks about it: whether it has
//! changed since it was last drawn, and the file it belongs to.

use crate::buffer::{lines_of, Buffer};
use crate::error::Error;
use crate::operation::{lemma_undo_apply, Operation};
use crate::text::{char_at, char_bytes, char_width, insertable, lemma_char_width, removable};
use vstd::prelude::*;
use vstd::string::*;
use vstd::utf8::*;

verus! {

/// Executes operations on a buffer.
pub struct BufferOperator {
    buffer: Buffer,
    pub dirty: bool,
    pub file_path: Option<String>,
}

/// A 64-bit offset as an index into memory, if it is one.
pub fn to_index(offset: u64) -> (r: Option<usize>)
    ensures
        r is Some <==> offset <= usize::MAX,
        r matches Some(i) ==> i == offset,
{
    if offset <= usize::MAX as u64 {
        Some(offset as usize)
    } else {
        None
    }
}

impl View for BufferOperator {
    type V = Seq<u8>;

    /// The bytes of the buffer's text.
    closed spec fn view(&self) -> Seq<u8> {
        self.buffer@
    }
}

impl BufferOperator {
    /// The buffer that the operator works on.
    pub closed spec fn inner(&self) -> Buffer {
        self.buffer
    }

    /// Whether the buffer has changed since the flag was last cleared.
    pub closed spec fn is_dirty(&self) -> bool {
        self.dirty
    }

    /// The file that the buffer belongs to, if any.
    pub closed spec fn path(&self) -> Option<String> {
        self.file_path
    }

    /// An operator on an empty buffer that belongs to no file.
    pub fn new() -> (r: BufferOperator)
        ensures
            r@ == Seq::<u8>::empty(),
            r.is_dirty(),
            r.path() is None,
    {
        BufferOperator { buffer: Buffer::new(), dirty: true, file_path: None }
    }

    /// An operator on a buffer that holds `text` and belongs to no file.
    pub fn from_string(text: String) -> (r: BufferOperator)
        ensures
            r@ == encode_utf8(text@),
            r.is_dirty(),
            r.path() is None,
    {
        BufferOperator { buffer: Buffer::from_string(text), dirty: true, file_path: None }
    }

    /// An operator on the contents of the file at `path`, which the caller
    /// has read.
    pub fn from_file(path: String, file_contents: String) -> (r: BufferOperator)
        ensures
            r@ == encode_utf8(file_contents@),
            r.is_dirty(),
            r.path() == Some(path),
    {
        BufferOperator { buffer: Buffer::from_string(file_contents), dirty: true, file_path: Some(path) }
    }

    /// What is to be written where when the buffer is saved: the path of
    /// the file that the buffer belongs to, and the text. A buffer that
    /// belongs to no file gives a message that says so.
    pub fn write_file(&self) -> (r: Result<(&String, &String), String>)
        ensures
            r is Ok <==> self.path() is Some,
            r matches Ok(target) ==> Some(*target.0) == self.path() && encode_utf8(target.1@)
                == self@,
            r matches Err(message) ==> message@ == "Buffer file_path is None"@,
    {
        match &self.file_path {
            Some(path) => Ok((path, self.buffer.buffer())),
            None => Err(String::from_str("Buffer file_path is None")),
        }
    }

    /// The buffer.
    pub fn buffer(&self) -> (b: &Buffer)
        ensures
            b@ == self@,
            *b == self.inner(),
            valid_utf8(self@),
            self@.len() <= usize::MAX,
    {
        let _ = self.buffer.line_info();
        &self.buffer
    }

    /// The buffer, to be changed in place.
    pub fn buffer_mut(&mut self) -> (b: &mut Buffer)
        ensures
            *b == old(self).inner(),
            final(self).inner() == *final(b),
            final(self)@ == final(b)@,
            final(self).is_dirty() == old(self).is_dirty(),
            final(self).path() == old(self).path(),
    {
        &mut self.buffer
    }

    /// Whether the buffer has changed since the flag was last cleared.
    pub fn dirty(&self) -> (dirty: bool)
        ensures
            dirty == self.is_dirty(),
    {
        self.dirty
    }

    /// Sets or clears the flag that says that the buffer has changed.
    pub fn set_dirty(&mut self, dirty: bool)
        ensures
            final(self).is_dirty() == dirty,
            final(self)@ == old(self)@,
            final(self).path() == old(self).path(),
    {
        self.dirty = dirty;
    }

    /// Empties the buffer.
    pub fn clear(&mut self)
        ensures
            final(self)@ == Seq::<u8>::empty(),
            final(self).is_dirty(),
            final(self).path() == old(self).path(),
    {
        self.buffer.clear();
        self.dirty = true;
    }

    /// Number of bytes of text.
    pub fn len(&self) -> (n: usize)
        ensures
            n == self@.len(),
            valid_utf8(self@),
    {
        self.buffer.len()
    }

    /// The bytes of the text.
    pub fn buffer_bytes(&self) -> (bytes: &[u8])
        ensures
            bytes@ == self@,
    {
        self.buffer.buffer().as_str().as_bytes()
    }

    /// Executes `operation` on the buffer if it is legal there, and leaves
    /// the buffer as it is if not.
    pub fn do_operation(&mut self, operation: &Operation) -> (r: Result<(), Error>)
        ensures
            r is Ok <==> operation.legal(old(self)@),
            valid_utf8(old(self)@),
            r is Ok ==> final(self)@ == operation.apply(old(self)@) && final(self).is_dirty(),
            r is Err ==> r == Err::<(), Error>(Error::OutOfRange) && *final(self) == *old(self),
            final(self).path() == old(self).path(),
    {
        let _ = self.buffer.len();
        let done = match operation {
            Operation::InsertChar(index, c) => {
                match to_index(*index) {
                    Some(i) => self.buffer.insert_char(i, *c),
                    None => Err(Error::OutOfRange),
                }
            },
            Operation::Insert(index, text) => {
                match to_index(*index) {
                    Some(i) => self.buffer.insert(i, text.as_str()),
                    None => Err(Error::OutOfRange),
                }
            },
            Operation::RemoveChar(index, c) => {
                match to_index(*index) {
                    Some(i) => {
                        match self.buffer.char_at(i) {
                            Ok(present) => {
                                if present == *c {
                                    let _ = self.buffer.remove_char(i);
                                    Ok(())
                                } else {
                                    proof {
                                        let b = self.buffer@;
                                        let w = char_width(*c);
                                        lemma_char_bytes_differ(present, *c);
                                        lemma_char_width(present);
                                        lemma_char_width(*c);
                                        if operation.legal(b) {
                                            assert(b.subrange(i as int, i + w)[0] == b[i as int]);
                                            assert(b.subrange(i as int, i + char_width(present))[0]
                                                == b[i as int]);
                                            lemma_leading_byte_gives_width(present, *c);
                                        }
                                    }
                                    Err(Error::OutOfRange)
                                }
                            },
                            Err(e) => Err(e),
                        }
                    },
                    None => Err(Error::OutOfRange),
                }
            },
            Operation::Remove(start, end, text) => {
                match (to_index(*start), to_index(*end)) {
                    (Some(from), Some(to)) => {
                        match self.buffer.slice(from, to) {
                            Ok(present) => {
                                if str_eq(present, text.as_str()) {
                                    let _ = self.buffer.remove(from, to);
                                    Ok(())
                                } else {
                                    proof {
                                        encode_utf8_decode_utf8(present@);
                                        encode_utf8_decode_utf8(text@);
                                    }
                                    Err(Error::OutOfRange)
                                }
                            },
                            Err(e) => Err(e),
                        }
                    },
                    _ => Err(Error::OutOfRange),
                }
            },
        };
        if done.is_err() {
            return Err(Error::OutOfRange);
        }
        self.dirty = true;
        Ok(())
    }

    /// Inserts `c` at `index` and returns the operation that did it.
    pub fn insert_char(&mut self, index: u64, c: char) -> (r: Result<Operation, Error>)
        ensures
            r is Ok <==> insertable(old(self)@, index as int),
            valid_utf8(old(self)@),
            r matches Ok(op) ==> {
                &&& op == Operation::InsertChar(index, c)
                &&& op.legal(old(self)@)
                &&& final(self)@ == op.apply(old(self)@)
                &&& op.applied(final(self)@)
                &&& final(self).is_dirty()
            },
            r is Err ==> r == Err::<Operation, Error>(Error::OutOfRange) && *final(self) == *old(self),
            final(self).path() == old(self).path(),
    {
        let op = Operation::InsertChar(index, c);
        match self.do_operation(&op) {
            Ok(()) => {
                proof {
                    lemma_undo_apply(op, old(self)@);
                }
                Ok(op)
            },
            Err(e) => Err(e),
        }
    }

    /// Inserts `text` at `index` and returns the operation that did it.
    pub fn insert(&mut self, index: u64, text: String) -> (r: Result<Operation, Error>)
        ensures
            r is Ok <==> insertable(old(self)@, index as int),
            r matches Ok(op) ==> {
                &&& op == Operation::Insert(index, text)
                &&& op.legal(old(self)@)
                &&& final(self)@ == op.apply(old(self)@)
                &&& op.applied(final(self)@)
                &&& final(self).is_dirty()
            },
            r is Err ==> r == Err::<Operation, Error>(Error::OutOfRange) && *final(self) == *old(self),
            final(self).path() == old(self).path(),
    {
        let op = Operation::Insert(index, text);
        match self.do_operation(&op) {
            Ok(()) => {
                proof {
                    lemma_undo_apply(op, old(self)@);
                }
                Ok(op)
            },
            Err(e) => Err(e),
        }
    }

    /// Removes the character at `index` and returns the operation that did
    /// it, which carries the character.
    pub fn remove_char(&mut self, index: u64) -> (r: Result<Operation, Error>)
        ensures
            r is Ok <==> index < old(self)@.len() && is_char_boundary(old(self)@, index as int),
            valid_utf8(old(self)@),
            r matches Ok(op) ==> {
                &&& op == Operation::RemoveChar(index, char_at(old(self)@, index as int))
                &&& op.legal(old(self)@)
                &&& final(self)@ == op.apply(old(self)@)
                &&& op.applied(final(self)@)
                &&& final(self).is_dirty()
            },
            r is Err ==> r == Err::<Operation, Error>(Error::OutOfRange) && *final(self) == *old(self),
            final(self).path() == old(self).path(),
    {
        let _ = self.buffer.len();
        match to_index(index) {
            Some(i) => {
                match self.buffer.remove_char(i) {
                    Ok(c) => {
                        self.dirty = true;
                        let op = Operation::RemoveChar(index, c);
                        proof {
                            lemma_undo_apply(op, old(self)@);
                        }
                        Ok(op)
                    },
                    Err(e) => Err(e),
                }
            },
            None => Err(Error::OutOfRange),
        }
    }

    /// Removes the bytes `from ..= to` and returns the operation that did
    /// it, which carries the removed text.
    pub fn remove(&mut self, from: u64, to: u64) -> (r: Result<Operation, Error>)
        ensures
            r is Ok <==> removable(old(self)@, from as int, to as int),
            valid_utf8(old(self)@),
            r matches Ok(op) ==> {
                &&& op matches Operation::Remove(s, e, _) && s == from && e == to
                &&& op.legal(old(self)@)
                &&& final(self)@ == op.apply(old(self)@)
                &&& op.applied(final(self)@)
                &&& final(self).is_dirty()
            },
            r is Err ==> r == Err::<Operation, Error>(Error::OutOfRange) && *final(self) == *old(self),
            final(self).path() == old(self).path(),
    {
        let _ = self.buffer.len();
        match (to_index(from), to_index(to)) {
            (Some(i), Some(j)) => {
                match self.buffer.remove(i, j) {
                    Ok(text) => {
                        self.dirty = true;
                        let op = Operation::Remove(from, to, text);
                        proof {
                            lemma_undo_apply(op, old(self)@);
                        }
                        Ok(op)
                    },
                    Err(e) => Err(e),
                }
            },
            _ => Err(Error::OutOfRange),
        }
    }
}

/// Tells whether two string slices hold the same text.
pub fn str_eq(a: &str, b: &str) -> (same: bool)
    ensures
        same == (a@ == b@),
{
    let x = a.as_bytes();
    let y = b.as_bytes();
    proof {
        encode_utf8_decode_utf8(a@);
        encode_utf8_decode_utf8(b@);
    }
    if x.len() != y.len() {
        return false;
    }
    let mut i: usize = 0;
    while i < x.len()
        invariant
            i <= x.len(),
            x.len() == y.len(),
            x@ == a.spec_bytes(),
            y@ == b.spec_bytes(),
            forall|k: int| 0 <= k < i ==> x@[k] == y@[k],
        decreases x.len() - i,
    {
        if x[i] != y[i] {
            return false;
        }
        i = i + 1;
    }
    proof {
        assert(x@ =~= y@);
    }
    true
}

/// Characters whose encodings start with the same byte are equally wide.
pub proof fn lemma_leading_byte_gives_width(a: char, b: char)
    requires
        char_bytes(a)[0] == char_bytes(b)[0],
    ensures
        char_width(a) == char_width(b),
{
    encode_utf8_first_scalar(seq![a]);
    encode_utf8_first_scalar(seq![b]);
    lemma_char_width(a);
    lemma_char_width(b);
    assert(seq![a][0] == a);
    assert(seq![b][0] == b);
}

/// Different characters have different encodings.
pub proof fn lemma_char_bytes_differ(a: char, b: char)
    requires
        a != b,
    ensures
        char_bytes(a) != char_bytes(b),
{
    encode_utf8_first_scalar(seq![a]);
    encode_utf8_first_scalar(seq![b]);
    lemma_char_width(a);
    lemma_char_width(b);
    assert(seq![a][0] == a);
    assert(seq![b][0] == b);
    if char_bytes(a) == char_bytes(b) {
        char_u32_cast(a, a as u32);
        char_u32_cast(b, b as u32);
    }
}

} // verus!
