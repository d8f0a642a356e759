//! The cursor: a line, a column and a byte offset that are kept consistent
//! under motions and under edits.

use crate::buffer::{
    count_newlines, lemma_count_newlines_bound, lemma_count_newlines_concat,
    lemma_line_of_offset, lemma_line_of_offset_unique, lemma_lines_of, lines_of, newlines_before,
    Buffer, LineInfo, NEWLINE,
};
use crate::operation::Operation;
use crate::text::{char_bytes, char_len, char_width, lemma_char_width};
use vstd::prelude::*;
use vstd::string::*;
use vstd::utf8::*;

verus! {

/// A position in a buffer. `column` and `buf_index` count bytes.
#[derive(Copy, Clone, PartialEq, Eq, Debug, Structural)]
pub struct Cursor {
    pub line: u64,
    pub column: u64,
    pub buf_index: u64,
}

/// The smaller of two offsets.
pub open spec fn min_of(a: int, b: int) -> int {
    if a <= b {
        a
    } else {
        b
    }
}

/// How many lines an offset `p` of the text before `op` moves when `op` is
/// applied: up by the newlines inserted at or before it, down by the
/// newlines removed before it.
pub open spec fn line_shift(op: Operation, p: int) -> int {
    if op.start() > p {
        0
    } else if op.is_insert() {
        count_newlines(op.text()) as int
    } else if op.range_end() < p {
        -(count_newlines(op.text()) as int)
    } else {
        -(count_newlines(op.text().take(p - op.start())) as int)
    }
}

/// The encoding of a character holds one newline if the character is the
/// newline, and none otherwise.
pub proof fn lemma_char_newlines(c: char)
    ensures
        count_newlines(char_bytes(c)) == if c == '\n' { 1nat } else { 0nat },
{
    let bytes = char_bytes(c);
    lemma_char_width(c);
    encode_utf8_first_scalar(seq![c]);
    assert(seq![c][0] == c);
    assert(valid_first_scalar(bytes));
    assert(decode_first_scalar(bytes) == c as u32);
    assert(length_of_first_scalar(bytes) == bytes.len());
    reveal_with_fuel(count_newlines, 5);
    if is_leading_byte_width_1(bytes[0]) {
        assert(bytes.drop_last() =~= Seq::<u8>::empty());
        assert(codepoint_width_1(bytes[0]) == bytes[0] as u32) by {
            let b0 = bytes[0];
            assert(b0 <= 0x7f ==> (b0 & 0x7f) as u32 == b0 as u32) by (bit_vector);
        }
        if c == '\n' {
            assert(c as u32 == 10);
        } else {
            char_u32_cast(c, c as u32);
            char_u32_cast('\n', 10u32);
        }
    } else if is_leading_byte_width_2(bytes[0]) {
        assert(bytes.drop_last().drop_last() =~= Seq::<u8>::empty());
        assert(c != '\n') by {
            if c == '\n' {
                assert(has_width_1_encoding(c as u32));
            }
        }
    } else if is_leading_byte_width_3(bytes[0]) {
        assert(bytes.drop_last().drop_last().drop_last() =~= Seq::<u8>::empty());
        assert(c != '\n') by {
            if c == '\n' {
                assert(has_width_1_encoding(c as u32));
            }
        }
    } else {
        assert(bytes.drop_last().drop_last().drop_last().drop_last() =~= Seq::<u8>::empty());
        assert(c != '\n') by {
            if c == '\n' {
                assert(has_width_1_encoding(c as u32));
            }
        }
    }
}

/// No newline lies before the last byte of a character's encoding.
pub proof fn lemma_char_inner_newlines(c: char, k: int)
    requires
        0 <= k < char_width(c),
    ensures
        count_newlines(char_bytes(c).take(k)) == 0,
{
    let bytes = char_bytes(c);
    lemma_char_newlines(c);
    lemma_char_width(c);
    assert(bytes =~= bytes.take(k) + bytes.subrange(k, bytes.len() as int));
    lemma_count_newlines_concat(bytes.take(k), bytes.subrange(k, bytes.len() as int));
    if c == '\n' {
        encode_utf8_first_scalar(seq![c]);
        assert(seq![c][0] == c);
        assert(has_width_1_encoding(c as u32));
        assert(bytes.take(0) =~= Seq::<u8>::empty());
    }
}

/// The line of an offset after an operation is its line before, moved by
/// the newlines that the operation put or took before it.
pub proof fn lemma_carry_line(op: Operation, after: Seq<u8>, p: int)
    requires
        op.applied(after),
        0 <= p <= op.undo(after).len(),
    ensures
        0 <= op.carry(p) <= after.len(),
        count_newlines(after.take(op.carry(p))) == count_newlines(op.undo(after).take(p))
            + line_shift(op, p),
{
    let before = op.undo(after);
    let t = op.text();
    let s = op.start();
    if s > p {
        assert(after.take(p) =~= before.take(p));
    } else if op.is_insert() {
        assert(after.take(p + t.len()) =~= before.take(s) + t + before.subrange(s, p));
        assert(before.take(p) =~= before.take(s) + before.subrange(s, p));
        lemma_count_newlines_concat(before.take(s), t);
        lemma_count_newlines_concat(before.take(s) + t, before.subrange(s, p));
        lemma_count_newlines_concat(before.take(s), before.subrange(s, p));
    } else {
        let e = op.range_end();
        assert(before.subrange(s, e + 1) == t);
        assert(t.len() == e + 1 - s);
        if e < p {
            assert(after.take(p - t.len()) =~= before.take(s) + before.subrange(e + 1, p));
            assert(before.take(p) =~= before.take(s) + t + before.subrange(e + 1, p));
            lemma_count_newlines_concat(before.take(s), t);
            lemma_count_newlines_concat(before.take(s) + t, before.subrange(e + 1, p));
            lemma_count_newlines_concat(before.take(s), before.subrange(e + 1, p));
        } else {
            assert(after.take(s) =~= before.take(s));
            assert(before.take(p) =~= before.take(s) + t.take(p - s));
            lemma_count_newlines_concat(before.take(s), t.take(p - s));
        }
    }
}

/// Cursor survival: a cursor that is within the bounds of a text is,
/// adjusted to an operation that is legal on that text, within the bounds
/// of the text that the operation makes, wherever the cursor stands with
/// respect to the operation; its line and column are those of its offset.
pub proof fn lemma_cursor_survives(cursor: Cursor, op: Operation, before: Seq<u8>)
    requires
        op.legal(before),
        before.len() <= usize::MAX,
        op.apply(before).len() <= usize::MAX,
        cursor.within(before),
    ensures
        cursor.adjusted(op, op.apply(before)).within(op.apply(before)),
        cursor.adjusted(op, op.apply(before)).anchored(op.apply(before)),
        cursor.adjusted(op, op.apply(before)).buf_index == op.carry(cursor.buf_index as int),
        cursor.adjusted(op, op.apply(before)).line == cursor.line + line_shift(
            op,
            cursor.buf_index as int,
        ),
{
    let after = op.apply(before);
    let p = cursor.buf_index as int;
    crate::operation::lemma_undo_apply(op, before);
    lemma_lines_of(before);
    lemma_line_of_offset_unique(before, p, cursor.line as int);
    lemma_carry_line(op, after, p);
    lemma_line_of_offset(after, op.carry(p));
    lemma_count_newlines_bound(after.take(op.carry(p)));
}

impl Cursor {
    /// The cursor is on a line of the text `b`.
    pub open spec fn on_line(self, b: Seq<u8>) -> bool {
        self.line < lines_of(b).len()
    }

    /// The cursor is within the bounds of `b`: on one of its lines, at an
    /// offset between the start and the end of that line.
    pub open spec fn within(self, b: Seq<u8>) -> bool {
        &&& self.on_line(b)
        &&& lines_of(b)[self.line as int].buf_index <= self.buf_index <= lines_of(
            b,
        )[self.line as int].end()
    }

    /// The offset is where line and column point: the column, cut down to
    /// the line's length, behind the start of the line.
    pub open spec fn placed(self, b: Seq<u8>) -> bool {
        &&& self.on_line(b)
        &&& self.buf_index == lines_of(b)[self.line as int].buf_index + min_of(
            self.column as int,
            lines_of(b)[self.line as int].length as int,
        )
    }

    /// Line and column are those of the offset.
    pub open spec fn anchored(self, b: Seq<u8>) -> bool {
        &&& self.within(b)
        &&& self.column == self.buf_index - lines_of(b)[self.line as int].buf_index
    }

    /// The cursor on `line` at `column` of the text `b`, its offset set
    /// from them.
    pub open spec fn locate(line: u64, column: u64, b: Seq<u8>) -> Cursor {
        Cursor {
            line,
            column,
            buf_index: (lines_of(b)[line as int].buf_index + min_of(
                column as int,
                lines_of(b)[line as int].length as int,
            )) as u64,
        }
    }

    /// The cursor one line up.
    pub open spec fn up(self, b: Seq<u8>) -> Cursor {
        Cursor::locate(if self.line > 0 { (self.line - 1) as u64 } else { 0 }, self.column, b)
    }

    /// The cursor one line down.
    pub open spec fn down(self, b: Seq<u8>) -> Cursor {
        Cursor::locate(
            if self.line + 1 < lines_of(b).len() { (self.line + 1) as u64 } else { self.line },
            self.column,
            b,
        )
    }

    /// The cursor one step to the left.
    pub open spec fn left(self, b: Seq<u8>) -> Cursor {
        Cursor::locate(self.stepped_left(lines_of(b)).0, self.stepped_left(lines_of(b)).1, b)
    }

    /// The cursor one step to the right.
    pub open spec fn right(self, b: Seq<u8>) -> Cursor {
        Cursor::locate(self.stepped_right(lines_of(b)).0, self.stepped_right(lines_of(b)).1, b)
    }

    /// The cursor at offset `p` of the text `b`, line and column set from
    /// the offset.
    pub open spec fn at_offset(p: int, b: Seq<u8>) -> Cursor {
        Cursor {
            line: count_newlines(b.take(p)) as u64,
            column: (p - lines_of(b)[count_newlines(b.take(p)) as int].buf_index) as u64,
            buf_index: p as u64,
        }
    }

    /// The cursor after `op` has made the text `after`.
    pub open spec fn adjusted(self, op: Operation, after: Seq<u8>) -> Cursor {
        Cursor::at_offset(op.carry(self.buf_index as int), after)
    }

    /// Line and column after a step to the left on the line index `l`.
    pub open spec fn stepped_left(self, l: Seq<LineInfo>) -> (u64, u64) {
        let length = l[self.line as int].length as u64;
        if self.column > 0 && self.column <= length {
            (self.line, (self.column - 1) as u64)
        } else if self.column > 0 && length >= 1 {
            (self.line, (length - 1) as u64)
        } else if self.line > 0 {
            ((self.line - 1) as u64, l[self.line - 1].length as u64)
        } else {
            (self.line, self.column)
        }
    }

    /// Line and column after a step to the right on the line index `l`.
    pub open spec fn stepped_right(self, l: Seq<LineInfo>) -> (u64, u64) {
        let length = l[self.line as int].length as u64;
        if length > 0 && self.column < length {
            (self.line, (self.column + 1) as u64)
        } else if self.line < l.len() - 1 {
            ((self.line + 1) as u64, 0)
        } else {
            (self.line, self.column)
        }
    }

    /// Tells whether the cursor is within the bounds of the buffer.
    pub fn is_within(&self, buffer: &Buffer) -> (within: bool)
        ensures
            within == self.within(buffer@),
    {
        let lines = buffer.line_info();
        proof {
            lemma_lines_of(buffer@);
        }
        if self.line >= lines.len() as u64 {
            false
        } else {
            let info = lines[self.line as usize];
            info.buf_index as u64 <= self.buf_index && self.buf_index <= (info.buf_index
                + info.length) as u64
        }
    }

    /// Moves the cursor one line up, if there is one, keeping the column.
    pub fn move_up(&mut self, buffer: &Buffer)
        requires
            old(self).on_line(buffer@),
        ensures
            *final(self) == old(self).up(buffer@),
            final(self).placed(buffer@),
            final(self).within(buffer@),
    {
        if self.line > 0 {
            self.line -= 1;
        }
        self.calculate_index(buffer);
    }

    /// Moves the cursor one line down, if there is one, keeping the column.
    pub fn move_down(&mut self, buffer: &Buffer)
        requires
            old(self).on_line(buffer@),
        ensures
            *final(self) == old(self).down(buffer@),
            final(self).placed(buffer@),
            final(self).within(buffer@),
    {
        let count = buffer.line_count();
        if self.line < (count - 1) as u64 {
            self.line += 1;
        }
        self.calculate_index(buffer);
    }

    /// Moves the cursor one column to the left, or to the end of the line
    /// above when it stands at the start of a line.
    pub fn move_left(&mut self, buffer: &Buffer)
        requires
            old(self).on_line(buffer@),
        ensures
            *final(self) == old(self).left(buffer@),
            final(self).placed(buffer@),
            final(self).within(buffer@),
    {
        let lines = buffer.line_info();
        let length = lines[self.line as usize].length as u64;
        if self.column > 0 && self.column <= length {
            self.column -= 1;
        } else if self.column > 0 && length >= 1 {
            self.column = length - 1;
        } else if self.line > 0 {
            self.line -= 1;
            self.column = lines[self.line as usize].length as u64;
        }
        self.calculate_index(buffer);
    }

    /// Moves the cursor one column to the right, or to the start of the
    /// line below when it stands at the end of a line.
    pub fn move_right(&mut self, buffer: &Buffer)
        requires
            old(self).on_line(buffer@),
        ensures
            *final(self) == old(self).right(buffer@),
            final(self).placed(buffer@),
            final(self).within(buffer@),
    {
        let lines = buffer.line_info();
        let length = lines[self.line as usize].length as u64;
        if length > 0 && self.column < length {
            self.column += 1;
        } else if self.line < (lines.len() - 1) as u64 {
            self.line += 1;
            self.column = 0;
        }
        self.calculate_index(buffer);
    }

    /// Where to display the cursor: the offset within its line, and the
    /// line.
    pub fn get_display_xy(&self, buffer: &Buffer) -> (xy: (u64, u64))
        requires
            self.within(buffer@),
        ensures
            xy.0 == self.buf_index - lines_of(buffer@)[self.line as int].buf_index,
            xy.1 == self.line,
    {
        let lines = buffer.line_info();
        let info = lines[self.line as usize];
        (self.buf_index - (info.buf_index as u64), self.line)
    }

    /// Adjusts the cursor to an operation that has been applied: `buffer`
    /// is the buffer after the operation, and the cursor was within the
    /// bounds of the buffer before it. The offset is carried along with the
    /// text, and line and column follow it.
    pub fn op_adjust_cursor(&mut self, buffer: &Buffer, op: &Operation)
        requires
            op.applied(buffer@),
            op.undo(buffer@).len() <= usize::MAX,
            old(self).within(op.undo(buffer@)),
        ensures
            *final(self) == old(self).adjusted(*op, buffer@),
            final(self).buf_index == op.carry(old(self).buf_index as int),
            final(self).line == old(self).line + line_shift(*op, old(self).buf_index as int),
            final(self).anchored(buffer@),
    {
        let ghost before = op.undo(buffer@);
        let ghost p = self.buf_index as int;
        let n = buffer.len();
        proof {
            lemma_cursor_survives(*self, *op, before);
            lemma_count_newlines_bound(buffer@.take(op.carry(p)));
        }
        match op {
            Operation::InsertChar(index, c) => {
                if *index <= self.buf_index {
                    proof {
                        lemma_char_newlines(*c);
                    }
                    if *c == '\n' {
                        self.line += 1;
                    }
                    self.buf_index += char_len(*c) as u64;
                }
            },
            Operation::Insert(index, text) => {
                if *index <= self.buf_index {
                    let bytes = text.as_str().as_bytes();
                    let newline_count = newlines_before(bytes, bytes.len());
                    proof {
                        assert(bytes@.take(bytes@.len() as int) =~= bytes@);
                    }
                    self.line += newline_count as u64;
                    self.buf_index += bytes.len() as u64;
                }
            },
            Operation::RemoveChar(index, c) => {
                if *index <= self.buf_index {
                    let width = char_len(*c) as u64;
                    proof {
                        lemma_char_newlines(*c);
                    }
                    if self.buf_index - *index >= width {
                        if *c == '\n' {
                            self.line -= 1;
                        }
                        self.buf_index -= width;
                    } else {
                        proof {
                            lemma_char_inner_newlines(*c, p - *index);
                        }
                        self.buf_index = *index;
                    }
                }
            },
            Operation::Remove(start, end, text) => {
                if *start <= self.buf_index {
                    let bytes = text.as_str().as_bytes();
                    if *end < self.buf_index {
                        let newline_count = newlines_before(bytes, bytes.len());
                        proof {
                            assert(bytes@.take(bytes@.len() as int) =~= bytes@);
                        }
                        self.line -= newline_count as u64;
                        self.buf_index -= bytes.len() as u64;
                    } else {
                        let newline_count = newlines_before(
                            bytes,
                            (self.buf_index - *start) as usize,
                        );
                        self.line -= newline_count as u64;
                        self.buf_index = *start;
                    }
                }
            },
        }
        self.calculate_column(buffer);
    }

    /// Sets the offset from line and column.
    pub fn calculate_index(&mut self, buffer: &Buffer)
        requires
            old(self).on_line(buffer@),
        ensures
            *final(self) == Cursor::locate(old(self).line, old(self).column, buffer@),
            final(self).placed(buffer@),
            final(self).within(buffer@),
    {
        let lines = buffer.line_info();
        let info = lines[self.line as usize];
        proof {
            lemma_lines_of(buffer@);
        }
        let column = if self.column < info.length as u64 {
            self.column as usize
        } else {
            info.length
        };
        self.buf_index = (info.buf_index + column) as u64;
    }

    /// Sets the column from line and offset.
    pub fn calculate_column(&mut self, buffer: &Buffer)
        requires
            old(self).on_line(buffer@),
            lines_of(buffer@)[old(self).line as int].buf_index <= old(self).buf_index,
        ensures
            final(self).line == old(self).line,
            final(self).buf_index == old(self).buf_index,
            final(self).column == old(self).buf_index - lines_of(buffer@)[old(self).line as int].buf_index,
    {
        let lines = buffer.line_info();
        let info = lines[self.line as usize];
        self.column = self.buf_index - info.buf_index as u64;
    }

    /// Sets line and column from the offset: the line is the last one that
    /// starts at or before the offset.
    pub fn calculate_pos(&mut self, buffer: &Buffer)
        ensures
            final(self).buf_index == old(self).buf_index,
            final(self).on_line(buffer@),
            lines_of(buffer@)[final(self).line as int].buf_index <= final(self).buf_index,
            final(self).line + 1 < lines_of(buffer@).len() ==> final(self).buf_index < lines_of(
                buffer@,
            )[final(self).line + 1].buf_index,
            final(self).column == final(self).buf_index - lines_of(buffer@)[final(self).line as int].buf_index,
            old(self).buf_index <= buffer@.len() ==> final(self).anchored(buffer@) && *final(self)
                == Cursor::at_offset(old(self).buf_index as int, buffer@),
    {
        let lines = buffer.line_info();
        proof {
            lemma_lines_of(buffer@);
        }
        let mut start: usize = 0;
        let mut stop: usize = lines.len() - 1;
        while start != stop
            invariant
                start <= stop < lines.len(),
                lines@ == lines_of(buffer@),
                lines[start as int].buf_index <= self.buf_index,
                stop + 1 < lines.len() ==> self.buf_index < lines[stop + 1].buf_index,
                self.buf_index == old(self).buf_index,
            decreases stop - start,
        {
            let mid = start + (stop - start + 1) / 2;
            if lines[mid].buf_index as u64 <= self.buf_index {
                start = mid;
            } else {
                stop = mid - 1;
            }
        }
        self.line = start as u64;
        self.calculate_column(buffer);
        proof {
            let b = buffer@;
            let p = self.buf_index as int;
            if p <= b.len() {
                let l = lines_of(b);
                lemma_lines_of(b);
                if start + 1 < l.len() {
                    assert(l[start + 1].buf_index == l[start as int].end() + 1);
                } else {
                    assert(l[start as int] == l.last());
                }
                lemma_line_of_offset_unique(b, p, start as int);
            }
        }
    }
}

} // verus!
