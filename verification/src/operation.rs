//! Edit operations and the rules by which one operation is rewritten after
//! another.

use crate::text::{
    char_bytes, char_len, char_width, cut_out, insertable, lemma_boundary_local, lemma_char_width,
    lemma_cut_valid, lemma_splice_valid, removable, splice_in,
};
use vstd::prelude::*;
use vstd::string::*;
use vstd::utf8::*;

verus! {

/// A primitive edit. Every offset is a byte offset into the text that the
/// operation is to be applied to; a removal carries what it removes, so that
/// every operation can be undone.
#[derive(PartialEq, Eq, Debug)]
pub enum Operation {
    /// Insert one character at an offset.
    InsertChar(u64, char),
    /// Insert a string at an offset.
    Insert(u64, String),
    /// Remove the character that starts at an offset.
    RemoveChar(u64, char),
    /// Remove the bytes between two offsets, both included.
    Remove(u64, u64, String),
}

/// The offsets of an operation without its text.
#[derive(Copy, Clone, PartialEq, Eq, Debug, Structural)]
pub enum OpCoords {
    InsertChar(u64),
    Insert(u64),
    RemoveChar(u64),
    Remove(u64, u64),
}

impl Clone for Operation {
    fn clone(&self) -> (r: Operation)
        ensures
            r == *self,
    {
        match self {
            Operation::InsertChar(index, c) => Operation::InsertChar(*index, *c),
            Operation::Insert(index, text) => Operation::Insert(*index, text.clone()),
            Operation::RemoveChar(index, c) => Operation::RemoveChar(*index, *c),
            Operation::Remove(start, end, text) => Operation::Remove(*start, *end, text.clone()),
        }
    }
}

/// Byte length of a string, as a 64-bit offset.
fn text_len(text: &String) -> (n: u64)
    ensures
        n == encode_utf8(text@).len(),
{
    text.as_str().as_bytes().len() as u64
}

impl Operation {
    /// The bytes that the operation inserts or removes.
    pub open spec fn text(self) -> Seq<u8> {
        match self {
            Operation::InsertChar(_, c) => char_bytes(c),
            Operation::Insert(_, s) => encode_utf8(s@),
            Operation::RemoveChar(_, c) => char_bytes(c),
            Operation::Remove(_, _, s) => encode_utf8(s@),
        }
    }

    /// True for the two inserting variants.
    pub open spec fn is_insert(self) -> bool {
        self is InsertChar || self is Insert
    }

    /// The offset at which the operation starts.
    pub open spec fn start(self) -> int {
        match self {
            Operation::InsertChar(i, _) => i as int,
            Operation::Insert(i, _) => i as int,
            Operation::RemoveChar(i, _) => i as int,
            Operation::Remove(s, _, _) => s as int,
        }
    }

    /// The end of the range that the operation affects: for a removal, the
    /// last offset that it removes; for the insertion of a character, its
    /// offset; for the insertion of a string, its offset plus the length of
    /// the string. Only the end of a removal plays a part when another
    /// operation is rewritten.
    pub open spec fn range_end(self) -> int {
        match self {
            Operation::InsertChar(i, _) => i as int,
            Operation::Insert(i, s) => i + encode_utf8(s@).len(),
            Operation::RemoveChar(i, c) => i + char_width(c) - 1,
            Operation::Remove(_, e, _) => e as int,
        }
    }

    /// Net change of the text's length in bytes.
    pub open spec fn bias(self) -> int {
        if self.is_insert() {
            self.text().len() as int
        } else {
            -(self.text().len() as int)
        }
    }

    /// A range removal is well formed when its range is not empty and its
    /// text is as long as the range. The other variants always are.
    pub open spec fn wf(self) -> bool {
        match self {
            Operation::Remove(s, e, t) => s <= e && e - s + 1 == encode_utf8(t@).len(),
            _ => true,
        }
    }

    /// The operation can be applied to the text `b`: `b` is valid UTF-8,
    /// the offsets lie in `b` on character boundaries, and a removal names
    /// what is there.
    pub open spec fn legal(self, b: Seq<u8>) -> bool {
        &&& valid_utf8(b)
        &&& self.fits(b)
    }

    /// The offsets of the operation lie in `b` on character boundaries, and
    /// a removal names what is there.
    pub open spec fn fits(self, b: Seq<u8>) -> bool {
        match self {
            Operation::InsertChar(i, _) => insertable(b, i as int),
            Operation::Insert(i, _) => insertable(b, i as int),
            Operation::RemoveChar(i, c) => {
                &&& removable(b, i as int, i + char_width(c) - 1)
                &&& b.subrange(i as int, i + char_width(c)) == char_bytes(c)
            },
            Operation::Remove(s, e, t) => {
                &&& removable(b, s as int, e as int)
                &&& b.subrange(s as int, e + 1) == encode_utf8(t@)
            },
        }
    }

    /// The text after the operation has been applied to `b`.
    pub open spec fn apply(self, b: Seq<u8>) -> Seq<u8> {
        if self.is_insert() {
            splice_in(b, self.start(), self.text())
        } else {
            cut_out(b, self.start(), self.range_end())
        }
    }

    /// The text before the operation, given the text `after` it.
    pub open spec fn undo(self, after: Seq<u8>) -> Seq<u8> {
        if self.is_insert() {
            cut_out(after, self.start(), self.start() + self.text().len() - 1)
        } else {
            splice_in(after, self.start(), self.text())
        }
    }

    /// `after` is what the operation makes of a text on which it is legal.
    pub open spec fn applied(self, after: Seq<u8>) -> bool {
        &&& self.start() + (if self.is_insert() { self.text().len() } else { 0 }) <= after.len()
        &&& self.legal(self.undo(after))
        &&& self.apply(self.undo(after)) == after
    }

    /// Where an offset `p` of the text before the operation lies in the
    /// text after it: text inserted at or before `p` pushes it on, text
    /// removed before `p` pulls it back, and an offset inside removed text
    /// falls to the start of the removal.
    pub open spec fn carry(self, p: int) -> int {
        if self.start() > p {
            p
        } else if self.is_insert() {
            p + self.text().len()
        } else if self.range_end() < p {
            p - self.text().len()
        } else {
            self.start()
        }
    }

    /// The operation that undoes this one.
    pub open spec fn inverted(self) -> Operation {
        match self {
            Operation::InsertChar(i, c) => Operation::RemoveChar(i, c),
            Operation::Insert(i, s) => Operation::Remove(
                i,
                (i + encode_utf8(s@).len() - 1) as u64,
                s,
            ),
            Operation::RemoveChar(i, c) => Operation::InsertChar(i, c),
            Operation::Remove(s, _, t) => Operation::Insert(s, t),
        }
    }

    /// The inverse can be written down: the last offset of an inserted
    /// string is a 64-bit offset.
    pub open spec fn invertible(self) -> bool {
        self matches Operation::Insert(i, s) ==> 1 <= i + encode_utf8(s@).len() <= u64::MAX + 1
    }

    /// The offsets of the operation.
    pub open spec fn coords(self) -> OpCoords {
        match self {
            Operation::InsertChar(i, _) => OpCoords::InsertChar(i),
            Operation::Insert(i, _) => OpCoords::Insert(i),
            Operation::RemoveChar(i, _) => OpCoords::RemoveChar(i),
            Operation::Remove(s, e, _) => OpCoords::Remove(s, e),
        }
    }

    /// The operation with its offsets replaced by `coords`, which must be of
    /// the same variant.
    pub open spec fn with_coords(self, coords: OpCoords) -> Operation {
        match (self, coords) {
            (Operation::InsertChar(_, c), OpCoords::InsertChar(i)) => Operation::InsertChar(i, c),
            (Operation::Insert(_, s), OpCoords::Insert(i)) => Operation::Insert(i, s),
            (Operation::RemoveChar(_, c), OpCoords::RemoveChar(i)) => Operation::RemoveChar(i, c),
            (Operation::Remove(_, _, t), OpCoords::Remove(s, e)) => Operation::Remove(s, e, t),
            _ => self,
        }
    }

    /// True when `coords` is of the same variant as the operation.
    pub open spec fn same_variant(self, coords: OpCoords) -> bool {
        match (self, coords) {
            (Operation::InsertChar(..), OpCoords::InsertChar(..)) => true,
            (Operation::Insert(..), OpCoords::Insert(..)) => true,
            (Operation::RemoveChar(..), OpCoords::RemoveChar(..)) => true,
            (Operation::Remove(..), OpCoords::Remove(..)) => true,
            _ => false,
        }
    }

    /// The operation with every offset moved by `d`.
    pub open spec fn shifted(self, d: int) -> Operation {
        match self {
            Operation::InsertChar(i, c) => Operation::InsertChar((i + d) as u64, c),
            Operation::Insert(i, s) => Operation::Insert((i + d) as u64, s),
            Operation::RemoveChar(i, c) => Operation::RemoveChar((i + d) as u64, c),
            Operation::Remove(s, e, t) => Operation::Remove((s + d) as u64, (e + d) as u64, t),
        }
    }

    /// Moving every offset by `d` stays within 64-bit offsets.
    pub open spec fn can_shift(self, d: int) -> bool {
        match self {
            Operation::Remove(s, e, _) => 0 <= s + d <= u64::MAX && 0 <= e + d <= u64::MAX,
            _ => 0 <= self.start() + d <= u64::MAX,
        }
    }

    /// How `later`, made against the text before `self`, has to move to make
    /// sense on the text after `self`: `None` when `self` has already
    /// removed what `later` was to remove, else the distance by which the
    /// offsets of `later` move.
    pub open spec fn rebase_offset(self, later: Operation) -> Option<int> {
        let ps = self.start();
        let pe = self.range_end();
        let bias = self.bias();
        match later {
            Operation::Remove(s, e, _) => {
                if bias < 0 && e >= ps && s <= pe {
                    None
                } else if s > ps {
                    Some(bias)
                } else {
                    Some(0)
                }
            },
            _ => {
                let idx = later.start();
                if bias < 0 && ps <= idx <= pe {
                    if later is RemoveChar {
                        None
                    } else {
                        Some(ps - idx)
                    }
                } else if idx > ps {
                    Some(bias)
                } else {
                    Some(0)
                }
            },
        }
    }

    /// `later` rewritten to follow `self`, or `None` when it is cancelled.
    pub open spec fn rebase(self, later: Operation) -> Option<Operation> {
        match self.rebase_offset(later) {
            None => None,
            Some(d) => Some(later.shifted(d)),
        }
    }

    /// `later` rewritten to follow `self`, if it survives: `None` when it
    /// is cancelled, and also when its rewritten offsets would leave the
    /// range of 64-bit offsets, which no text reaches.
    pub open spec fn carry_over(self, later: Operation) -> Option<Operation> {
        if self.rebase_fits(later) {
            self.rebase(later)
        } else {
            None
        }
    }

    /// The rewritten offsets of `later` are 64-bit offsets.
    pub open spec fn rebase_fits(self, later: Operation) -> bool {
        self.rebase_offset(later) matches Some(d) ==> later.can_shift(d)
    }

    /// Start, last removed offset (capped at the largest offset), width in
    /// bytes, and whether the operation removes.
    fn extent(&self) -> (r: (u64, u64, u64, bool))
        ensures
            r.0 == self.start(),
            r.2 == self.text().len(),
            r.3 == !self.is_insert(),
            r.3 ==> r.1 == if self.range_end() <= u64::MAX { self.range_end() } else { u64::MAX as int },
    {
        match self {
            Operation::InsertChar(index, c) => {
                let width = char_len(*c) as u64;
                (*index, *index, width, false)
            },
            Operation::Insert(index, text) => (*index, *index, text_len(text), false),
            Operation::RemoveChar(index, c) => {
                let width = char_len(*c) as u64;
                let last = if u64::MAX - *index >= width - 1 {
                    *index + (width - 1)
                } else {
                    u64::MAX
                };
                (*index, last, width, true)
            },
            Operation::Remove(start, end, text) => (*start, *end, text_len(text), true),
        }
    }

    /// Rewrites `op`, made against the text before `self`, so that it makes
    /// sense on the text after `self`. Returns `false`, and leaves `op`
    /// as it is, when `self` has already removed what `op` was to remove.
    pub fn do_before(&self, op: &mut Operation) -> (alive: bool)
        requires
            self.rebase_fits(*old(op)),
        ensures
            alive == self.rebase(*old(op)) is Some,
            alive ==> Some(*final(op)) == self.rebase(*old(op)),
            !alive ==> *final(op) == *old(op),
    {
        let (ps, pe, width, removes) = self.extent();
        let shrinks = removes && width > 0;
        match op {
            Operation::InsertChar(index, _) => {
                if shrinks && ps <= *index && *index <= pe {
                    *index = ps;
                } else if *index > ps {
                    if removes {
                        *index = *index - width;
                    } else {
                        *index = *index + width;
                    }
                }
            },
            Operation::Insert(index, _) => {
                if shrinks && ps <= *index && *index <= pe {
                    *index = ps;
                } else if *index > ps {
                    if removes {
                        *index = *index - width;
                    } else {
                        *index = *index + width;
                    }
                }
            },
            Operation::RemoveChar(index, _) => {
                if shrinks && ps <= *index && *index <= pe {
                    return false;
                } else if *index > ps {
                    if removes {
                        *index = *index - width;
                    } else {
                        *index = *index + width;
                    }
                }
            },
            Operation::Remove(start, end, _) => {
                if shrinks && *end >= ps && *start <= pe {
                    return false;
                } else if *start > ps {
                    if removes {
                        *start = *start - width;
                        *end = *end - width;
                    } else {
                        *start = *start + width;
                        *end = *end + width;
                    }
                }
            },
        }
        true
    }

    /// Rewrites `op` to follow `self` if it survives that, and tells
    /// whether it does. An operation that does not survive is left as it
    /// is.
    pub fn try_do_before(&self, op: &mut Operation) -> (alive: bool)
        ensures
            alive == self.carry_over(*old(op)) is Some,
            alive ==> Some(*final(op)) == self.carry_over(*old(op)),
            !alive ==> *final(op) == *old(op),
    {
        if self.can_do_before(op) {
            self.do_before(op)
        } else {
            false
        }
    }

    /// Tells whether `do_before` can rewrite `op` within 64-bit offsets.
    pub fn can_do_before(&self, op: &Operation) -> (fits: bool)
        ensures
            fits == self.rebase_fits(*op),
    {
        let (ps, pe, width, removes) = self.extent();
        let shrinks = removes && width > 0;
        match op {
            Operation::Remove(start, end, _) => {
                if shrinks && *end >= ps && *start <= pe {
                    true
                } else if *start > ps {
                    if removes {
                        *start >= width && *end >= width
                    } else {
                        u64::MAX - *start >= width && u64::MAX - *end >= width
                    }
                } else {
                    true
                }
            },
            Operation::InsertChar(index, _) => Self::point_fits(*index, ps, pe, width, removes),
            Operation::Insert(index, _) => Self::point_fits(*index, ps, pe, width, removes),
            Operation::RemoveChar(index, _) => Self::point_fits(*index, ps, pe, width, removes),
        }
    }

    /// The case of `can_do_before` for an operation with a single offset.
    fn point_fits(index: u64, ps: u64, pe: u64, width: u64, removes: bool) -> (fits: bool)
        ensures
            fits == if removes && width > 0 && ps <= index <= pe {
                true
            } else if index > ps {
                if removes {
                    index >= width
                } else {
                    index + width <= u64::MAX
                }
            } else {
                true
            },
    {
        if removes && width > 0 && ps <= index && index <= pe {
            true
        } else if index > ps {
            if removes {
                index >= width
            } else {
                u64::MAX - index >= width
            }
        } else {
            true
        }
    }

    /// Tells whether the operation is well formed.
    pub fn is_wf(&self) -> (wf: bool)
        ensures
            wf == self.wf(),
    {
        match self {
            Operation::Remove(start, end, text) => {
                let n = text_len(text);
                if *start <= *end && *end - *start < u64::MAX {
                    *end - *start + 1 == n
                } else {
                    false
                }
            },
            _ => true,
        }
    }

    /// Tells whether the operation has an inverse.
    pub fn is_invertible(&self) -> (invertible: bool)
        ensures
            invertible == self.invertible(),
    {
        match self {
            Operation::Insert(index, text) => {
                let n = text_len(text);
                if *index == 0 {
                    n >= 1
                } else {
                    u64::MAX - (*index - 1) >= n
                }
            },
            _ => true,
        }
    }

    /// The offset at which the operation starts.
    pub fn start_offset(&self) -> (offset: u64)
        ensures
            offset == self.start(),
    {
        self.extent().0
    }

    /// Number of bytes that the operation inserts or removes.
    pub fn width(&self) -> (n: u64)
        ensures
            n == self.text().len(),
    {
        self.extent().2
    }

    /// The operation that undoes this one.
    pub fn inverse(self) -> (inv: Operation)
        requires
            self.invertible(),
        ensures
            inv == self.inverted(),
    {
        match self {
            Operation::InsertChar(index, c) => Operation::RemoveChar(index, c),
            Operation::Insert(index, text) => {
                let n = text_len(&text);
                let end = if index == 0 {
                    n - 1
                } else {
                    index - 1 + n
                };
                Operation::Remove(index, end, text)
            },
            Operation::RemoveChar(index, c) => Operation::InsertChar(index, c),
            Operation::Remove(start, _, text) => Operation::Insert(start, text),
        }
    }

    /// The offsets of the operation.
    pub fn get_coords(&self) -> (coords: OpCoords)
        ensures
            coords == self.coords(),
    {
        match self {
            Operation::InsertChar(index, _) => OpCoords::InsertChar(*index),
            Operation::Insert(index, _) => OpCoords::Insert(*index),
            Operation::RemoveChar(index, _) => OpCoords::RemoveChar(*index),
            Operation::Remove(start, end, _) => OpCoords::Remove(*start, *end),
        }
    }

    /// Replaces the offsets of the operation by `coords`.
    pub fn set_coords(&mut self, coords: &OpCoords)
        requires
            old(self).same_variant(*coords),
        ensures
            *final(self) == old(self).with_coords(*coords),
    {
        match self {
            Operation::InsertChar(index, _) => {
                if let OpCoords::InsertChar(new_index) = coords {
                    *index = *new_index;
                }
            },
            Operation::Insert(index, _) => {
                if let OpCoords::Insert(new_index) = coords {
                    *index = *new_index;
                }
            },
            Operation::RemoveChar(index, _) => {
                if let OpCoords::RemoveChar(new_index) = coords {
                    *index = *new_index;
                }
            },
            Operation::Remove(start, end, _) => {
                if let OpCoords::Remove(new_start, new_end) = coords {
                    *start = *new_start;
                    *end = *new_end;
                }
            },
        }
    }
}

/// Applying an operation and then taking it back gives the text it was
/// applied to.
pub proof fn lemma_undo_apply(op: Operation, b: Seq<u8>)
    requires
        op.legal(b),
    ensures
        op.undo(op.apply(b)) == b,
        op.applied(op.apply(b)),
        valid_utf8(op.apply(b)),
{
    lemma_apply_valid(op, b);
    let after = op.apply(b);
    let t = op.text();
    let s = op.start();
    if op.is_insert() {
        assert(op.undo(after) =~= b);
    } else {
        assert(b.subrange(s, op.range_end() + 1) == t);
        assert(op.undo(after) =~= b);
    }
}

/// What an operation makes of valid UTF-8 is valid UTF-8.
pub proof fn lemma_apply_valid(op: Operation, b: Seq<u8>)
    requires
        op.legal(b),
    ensures
        valid_utf8(op.apply(b)),
{
    match op {
        Operation::InsertChar(i, c) => {
            lemma_char_width(c);
            lemma_splice_valid(b, i as int, char_bytes(c));
        },
        Operation::Insert(i, s) => {
            encode_utf8_valid_utf8(s@);
            lemma_splice_valid(b, i as int, encode_utf8(s@));
        },
        Operation::RemoveChar(i, c) => {
            lemma_cut_valid(b, i as int, i + char_width(c) - 1);
        },
        Operation::Remove(s, e, _) => {
            lemma_cut_valid(b, s as int, e as int);
        },
    }
}

/// The inverse law: on the text that an operation has made, its inverse is
/// legal and gives back the text that the operation was applied to. An
/// insertion of an empty string is left out: its inverse would be a removal
/// of nothing, which no removal can express.
pub proof fn lemma_inverse_law(op: Operation, b: Seq<u8>)
    requires
        op.legal(b),
        op.invertible(),
        op.text().len() > 0,
    ensures
        op.inverted().legal(op.apply(b)),
        op.inverted().apply(op.apply(b)) == b,
{
    let after = op.apply(b);
    let inv = op.inverted();
    let t = op.text();
    let s = op.start();
    lemma_apply_valid(op, b);
    lemma_boundary_local(b, s);
    lemma_boundary_local(after, s);
    if op.is_insert() {
        assert(valid_utf8(t)) by {
            match op {
                Operation::InsertChar(_, c) => {
                    lemma_char_width(c);
                },
                Operation::Insert(_, text) => {
                    encode_utf8_valid_utf8(text@);
                },
                _ => {},
            }
        }
        is_char_boundary_start_end_of_seq(t);
        lemma_boundary_local(t, 0);
        lemma_boundary_local(after, s + t.len());
        assert(after.subrange(s, s + t.len()) =~= t);
        assert(inv.apply(after) =~= b);
        match op {
            Operation::InsertChar(_, c) => {
                lemma_char_width(c);
            },
            _ => {},
        }
    } else {
        let e = op.range_end();
        assert(b.subrange(s, e + 1) == t);
        lemma_boundary_local(b, e + 1);
        assert(inv.apply(after) =~= b);
    }
}

/// Taking back an operation is applying its inverse: on a text `after`,
/// the inverse of a well-formed operation that moves at least one byte is
/// legal exactly when the operation can have made `after`, and it gives the
/// text from which the operation made it.
pub proof fn lemma_inverse_is_undo(op: Operation, after: Seq<u8>)
    requires
        op.wf(),
        op.invertible(),
        op.text().len() > 0,
    ensures
        op.inverted().legal(after) <==> op.applied(after),
        op.inverted().legal(after) ==> op.inverted().apply(after) == op.undo(after),
{
    let inv = op.inverted();
    let t = op.text();
    let s = op.start();
    let before = op.undo(after);
    assert(valid_utf8(t)) by {
        match op {
            Operation::InsertChar(_, c) => {
                lemma_char_width(c);
            },
            Operation::RemoveChar(_, c) => {
                lemma_char_width(c);
            },
            Operation::Insert(_, text) => {
                encode_utf8_valid_utf8(text@);
            },
            Operation::Remove(_, _, text) => {
                encode_utf8_valid_utf8(text@);
            },
        }
    }
    match op {
        Operation::InsertChar(_, c) => {
            lemma_char_width(c);
        },
        Operation::RemoveChar(_, c) => {
            lemma_char_width(c);
        },
        _ => {},
    }
    is_char_boundary_start_end_of_seq(t);
    lemma_boundary_local(t, 0);
    if op.is_insert() {
        let last = s + t.len() - 1;
        if inv.legal(after) {
            lemma_cut_valid(after, s, last);
            lemma_boundary_local(after, last + 1);
            lemma_boundary_local(before, s);
            assert(op.apply(before) =~= after);
        }
        if op.applied(after) {
            lemma_inverse_law(op, before);
        }
    } else {
        if inv.legal(after) {
            lemma_inverse_law(inv, after);
            assert(inv.inverted() == op);
        }
        if op.applied(after) {
            lemma_apply_valid(op, before);
            lemma_boundary_local(before, op.range_end() + 1);
            lemma_boundary_local(after, s);
        }
    }
}

} // verus!
