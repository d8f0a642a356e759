//! Flat text buffer with a derived line index.
//!
//! The text is held as a `String`; every offset is a byte offset into its
//! UTF-8 encoding, and the mathematical view of a buffer is that byte
//! sequence. The line index is a function of the bytes alone.

use crate::error::Error;
use crate::text::{
    char_at, char_bytes, char_len, char_width, cut_out, insertable, lemma_boundary_local,
    lemma_boundary_step, lemma_char_width, lemma_encode_utf8_concat, removable, splice_in,
};
use vstd::prelude::*;
use vstd::string::*;
use vstd::utf8::*;

verus! {

/// The byte that ends a line.
pub const NEWLINE: u8 = 10;

/// Start offset and length (newline excluded) of one line.
#[derive(Copy, Clone, Debug, PartialEq, Eq, Structural)]
pub struct LineInfo {
    pub buf_index: usize,
    pub length: usize,
}

impl LineInfo {
    /// Offset one past the last byte of the line: the end of the text or the
    /// position of the newline that closes the line.
    pub open spec fn end(self) -> int {
        self.buf_index + self.length
    }

    /// Column of the last character of the line, zero for an empty line.
    pub fn last_column(&self) -> (col: usize)
        ensures
            col == if self.length > 0 { self.length - 1 } else { 0 },
    {
        if self.length > 0 {
            self.length - 1
        } else {
            0
        }
    }
}

/// Number of newline bytes in `b`.
pub open spec fn count_newlines(b: Seq<u8>) -> nat
    decreases b.len(),
{
    if b.len() == 0 {
        0
    } else {
        count_newlines(b.drop_last()) + if b.last() == NEWLINE { 1nat } else { 0nat }
    }
}

/// The line index of the text `b`: one entry per line, in order.
pub open spec fn lines_of(b: Seq<u8>) -> Seq<LineInfo>
    decreases b.len(),
{
    if b.len() == 0 {
        seq![LineInfo { buf_index: 0, length: 0 }]
    } else {
        let prev = lines_of(b.drop_last());
        if b.last() == NEWLINE {
            prev.push(LineInfo { buf_index: b.len() as usize, length: 0 })
        } else {
            prev.update(
                prev.len() - 1,
                LineInfo { buf_index: prev.last().buf_index, length: (prev.last().length + 1) as usize },
            )
        }
    }
}

/// What makes `l` the line index of `b`: the lines tile the text, separated
/// by single newlines, and no line holds a newline.
pub open spec fn is_line_index(l: Seq<LineInfo>, b: Seq<u8>) -> bool {
    &&& l.len() == count_newlines(b) + 1
    &&& l[0].buf_index == 0
    &&& l.last().end() == b.len()
    &&& forall|i: int| 0 <= i < l.len() ==> (#[trigger] l[i]).end() <= b.len()
    &&& forall|i: int| 0 <= i < l.len() - 1 ==> b[(#[trigger] l[i]).end()] == NEWLINE
    &&& forall|i: int, j: int|
        0 <= i && j == i + 1 && j < l.len() ==> (#[trigger] l[j]).buf_index == (#[trigger] l[i]).end()
            + 1
    &&& forall|i: int, j: int| 0 <= i < l.len() && #[trigger] in_line(l[i], j) ==> b[j] != NEWLINE
}

/// True when offset `j` lies on the line `line`, before its end.
pub open spec fn in_line(line: LineInfo, j: int) -> bool {
    line.buf_index <= j < line.end()
}

/// The derived index is the line index of its text.
pub proof fn lemma_lines_of(b: Seq<u8>)
    requires
        b.len() <= usize::MAX,
    ensures
        is_line_index(lines_of(b), b),
    decreases b.len(),
{
    if b.len() > 0 {
        let p = b.drop_last();
        let lp = lines_of(p);
        let l = lines_of(b);
        lemma_lines_of(p);
        if b.last() == NEWLINE {
            assert forall|i: int| 0 <= i < l.len() - 1 implies b[(#[trigger] l[i]).end()]
                == NEWLINE by {
                if i < lp.len() - 1 {
                    assert(l[i] == lp[i]);
                    assert(lp[i + 1].buf_index == lp[i].end() + 1);
                    assert(p[lp[i].end()] == NEWLINE);
                }
            }
            assert forall|i: int, j: int| 0 <= i && j == i + 1 && j < l.len() implies (
            #[trigger] l[j]).buf_index == (#[trigger] l[i]).end() + 1 by {
                assert(l[i] == lp[i]);
                if j < lp.len() {
                    assert(l[j] == lp[j]);
                }
            }
            assert forall|i: int, j: int| 0 <= i < l.len() && #[trigger] in_line(l[i], j) implies b[j]
                != NEWLINE by {
                assert(l[i] == lp[i]);
                assert(in_line(lp[i], j));
            }
        } else {
            assert forall|i: int| 0 <= i < l.len() - 1 implies b[(#[trigger] l[i]).end()]
                == NEWLINE by {
                assert(l[i] == lp[i]);
                assert(lp[i + 1].buf_index == lp[i].end() + 1);
                assert(p[lp[i].end()] == NEWLINE);
            }
            assert forall|i: int, j: int| 0 <= i && j == i + 1 && j < l.len() implies (
            #[trigger] l[j]).buf_index == (#[trigger] l[i]).end() + 1 by {
                assert(l[i] == lp[i]);
                assert(l[j].buf_index == lp[j].buf_index);
            }
            assert forall|i: int, j: int| 0 <= i < l.len() && #[trigger] in_line(l[i], j) implies b[j]
                != NEWLINE by {
                if j < p.len() {
                    assert(in_line(lp[i], j));
                }
            }
            assert forall|i: int| 0 <= i < l.len() implies (#[trigger] l[i]).end() <= b.len() by {
                if i < l.len() - 1 {
                    assert(l[i] == lp[i]);
                }
            }
        }
    }
}

/// Line-index consistency: the first line starts at offset 0, every
/// other line starts just behind a newline, and every line ends at the end
/// of the text or at a newline.
pub proof fn lemma_line_index_consistent(b: Seq<u8>, i: int)
    requires
        b.len() <= usize::MAX,
        0 <= i < lines_of(b).len(),
    ensures
        lines_of(b)[0].buf_index == 0,
        i > 0 ==> 0 < lines_of(b)[i].buf_index <= b.len() && b[lines_of(b)[i].buf_index - 1]
            == NEWLINE,
        lines_of(b)[i].end() == b.len() || (lines_of(b)[i].end() < b.len() && b[lines_of(b)[i].end()] == NEWLINE),
{
    let l = lines_of(b);
    lemma_lines_of(b);
    if i > 0 {
        assert(l[i].buf_index == l[i - 1].end() + 1);
        assert(b[l[i - 1].end()] == NEWLINE);
    }
    if i < l.len() - 1 {
        assert(b[l[i].end()] == NEWLINE);
        assert(l[i + 1].buf_index == l[i].end() + 1);
    } else {
        assert(l[i] == l.last());
    }
}

/// Newlines of a concatenation are those of its parts.
pub proof fn lemma_count_newlines_concat(a: Seq<u8>, b: Seq<u8>)
    ensures
        count_newlines(a + b) == count_newlines(a) + count_newlines(b),
    decreases b.len(),
{
    if b.len() == 0 {
        assert(a + b =~= a);
    } else {
        lemma_count_newlines_concat(a, b.drop_last());
        assert((a + b).drop_last() =~= a + b.drop_last());
    }
}

/// A text has at most as many newlines as bytes.
pub proof fn lemma_count_newlines_bound(b: Seq<u8>)
    ensures
        count_newlines(b) <= b.len(),
    decreases b.len(),
{
    if b.len() > 0 {
        lemma_count_newlines_bound(b.drop_last());
    }
}

/// Every line starts behind the end of each earlier line.
pub proof fn lemma_lines_increase(l: Seq<LineInfo>, b: Seq<u8>, i: int, j: int)
    requires
        is_line_index(l, b),
        0 <= i < j < l.len(),
    ensures
        l[i].end() < l[j].buf_index,
    decreases j - i,
{
    if i + 1 < j {
        lemma_lines_increase(l, b, i, j - 1);
        assert(l[j].buf_index == l[j - 1].end() + 1);
    } else {
        assert(l[j].buf_index == l[i].end() + 1);
    }
}

/// The index of a prefix of the text agrees with the index of the text on
/// every line but the last of the prefix, which starts at the same offset
/// and is at most as long.
pub proof fn lemma_lines_of_prefix(b: Seq<u8>, p: int)
    requires
        0 <= p <= b.len() <= usize::MAX,
    ensures
        lines_of(b.take(p)).len() <= lines_of(b).len(),
        forall|i: int| 0 <= i < lines_of(b.take(p)).len() - 1 ==> lines_of(b)[i] == #[trigger] lines_of(b.take(p))[i],
        lines_of(b)[lines_of(b.take(p)).len() - 1].buf_index == lines_of(b.take(p)).last().buf_index,
        lines_of(b)[lines_of(b.take(p)).len() - 1].length >= lines_of(b.take(p)).last().length,
    decreases b.len(),
{
    if p == b.len() {
        assert(b.take(p) =~= b);
    } else {
        let shorter = b.drop_last();
        assert(shorter.take(p) =~= b.take(p));
        lemma_lines_of_prefix(shorter, p);
        lemma_lines_of(shorter);
        lemma_lines_of(b.take(p));
        let lp = lines_of(b.take(p));
        let ls = lines_of(shorter);
        let l = lines_of(b);
        assert forall|i: int| 0 <= i < lp.len() - 1 implies l[i] == #[trigger] lp[i] by {
            assert(ls[i] == lp[i]);
        }
    }
}

/// The line on which an offset lies is the number of newlines before it.
pub proof fn lemma_line_of_offset(b: Seq<u8>, p: int)
    requires
        0 <= p <= b.len() <= usize::MAX,
    ensures
        count_newlines(b.take(p)) < lines_of(b).len(),
        lines_of(b)[count_newlines(b.take(p)) as int].buf_index <= p <= lines_of(b)[count_newlines(
            b.take(p),
        ) as int].end(),
{
    lemma_lines_of_prefix(b, p);
    lemma_lines_of(b.take(p));
}

/// An offset lies on one line only.
pub proof fn lemma_line_of_offset_unique(b: Seq<u8>, p: int, line: int)
    requires
        0 <= p <= b.len() <= usize::MAX,
        0 <= line < lines_of(b).len(),
        lines_of(b)[line].buf_index <= p <= lines_of(b)[line].end(),
    ensures
        line == count_newlines(b.take(p)),
{
    let l = lines_of(b);
    let k = count_newlines(b.take(p)) as int;
    lemma_line_of_offset(b, p);
    lemma_lines_of(b);
    if line < k {
        lemma_lines_increase(l, b, line, k);
    } else if k < line {
        lemma_lines_increase(l, b, k, line);
    }
}

/// Number of newlines among the first `n` bytes of `bytes`.
pub fn newlines_before(bytes: &[u8], n: usize) -> (k: usize)
    requires
        n <= bytes@.len(),
    ensures
        k == count_newlines(bytes@.take(n as int)),
        k <= n,
{
    let mut k: usize = 0;
    let mut i: usize = 0;
    proof {
        assert(bytes@.take(0) =~= Seq::<u8>::empty());
    }
    while i < n
        invariant
            i <= n <= bytes@.len(),
            k <= i,
            k == count_newlines(bytes@.take(i as int)),
        decreases n - i,
    {
        proof {
            assert(bytes@.take(i + 1).drop_last() =~= bytes@.take(i as int));
        }
        if bytes[i] == NEWLINE {
            k = k + 1;
        }
        i = i + 1;
    }
    k
}

/// Builds the line index of `text`.
pub fn build_line_info(text: &str) -> (line_info: Vec<LineInfo>)
    ensures
        line_info@ == lines_of(text.spec_bytes()),
        text.spec_bytes().len() <= usize::MAX,
{
    let bytes = text.as_bytes();
    let mut line_info: Vec<LineInfo> = Vec::new();
    let mut next_line_start: usize = 0;
    let mut i: usize = 0;
    proof {
        assert(bytes@.take(0) =~= Seq::<u8>::empty());
        assert(lines_of(bytes@.take(0)) =~= line_info@.push(
            LineInfo { buf_index: 0, length: 0 },
        ));
    }
    while i < bytes.len()
        invariant
            i <= bytes.len(),
            next_line_start <= i,
            lines_of(bytes@.take(i as int)) == line_info@.push(
                LineInfo { buf_index: next_line_start, length: (i - next_line_start) as usize },
            ),
        decreases bytes.len() - i,
    {
        proof {
            let next = bytes@.take(i + 1);
            assert(next.drop_last() =~= bytes@.take(i as int));
            assert(next.last() == bytes@[i as int]);
        }
        if bytes[i] == NEWLINE {
            line_info.push(LineInfo { buf_index: next_line_start, length: i - next_line_start });
            next_line_start = i + 1;
        }
        i = i + 1;
        proof {
            assert(lines_of(bytes@.take(i as int)) =~= line_info@.push(
                LineInfo { buf_index: next_line_start, length: (i - next_line_start) as usize },
            ));
        }
    }
    proof {
        assert(bytes@.take(i as int) =~= bytes@);
    }
    line_info.push(LineInfo { buf_index: next_line_start, length: i - next_line_start });
    line_info
}

/// `String::push`: the string afterwards is the string before with `c`
/// appended as its last character.
#[verifier::external_body]
fn push_char(s: &mut String, c: char)
    ensures
        final(s)@ == old(s)@.push(c),
{
    s.push(c);
}

/// A text buffer: the text and the index of its lines.
pub struct Buffer {
    buf: String,
    line_info: Vec<LineInfo>,
}

impl View for Buffer {
    type V = Seq<u8>;

    /// The bytes of the text.
    closed spec fn view(&self) -> Seq<u8> {
        encode_utf8(self.buf@)
    }
}

impl Buffer {
    /// The line index is always that of the text.
    #[verifier::type_invariant]
    pub closed spec fn inv(&self) -> bool {
        &&& self.line_info@ == lines_of(encode_utf8(self.buf@))
        &&& encode_utf8(self.buf@).len() <= usize::MAX
    }

    /// The text as characters.
    pub closed spec fn chars(&self) -> Seq<char> {
        self.buf@
    }

    /// The line index held by the buffer.
    pub closed spec fn line_index(&self) -> Seq<LineInfo> {
        self.line_info@
    }

    /// An empty buffer: no bytes, one empty line.
    pub fn new() -> (b: Buffer)
        ensures
            b@ == Seq::<u8>::empty(),
            b.line_index() == lines_of(b@),
    {
        let buf = String::new();
        let line_info = build_line_info(buf.as_str());
        Buffer { buf, line_info }
    }

    /// A buffer that holds `text`.
    pub fn from_string(text: String) -> (b: Buffer)
        ensures
            b@ == encode_utf8(text@),
            b.chars() == text@,
            b.line_index() == lines_of(b@),
    {
        let line_info = build_line_info(text.as_str());
        Buffer { buf: text, line_info }
    }

    /// Inserts `text` at byte offset `buf_index`.
    pub fn insert(&mut self, buf_index: usize, text: &str) -> (r: Result<(), Error>)
        ensures
            r is Ok <==> insertable(old(self)@, buf_index as int),
            r is Ok ==> final(self)@ == splice_in(old(self)@, buf_index as int, text.spec_bytes()),
            r is Err ==> r == Err::<(), Error>(Error::OutOfRange) && *final(self) == *old(self),
            final(self).line_index() == lines_of(final(self)@),
    {
        proof {
            use_type_invariant(&*self);
            encode_utf8_valid_utf8(self.buf@);
        }
        let s = self.buf.as_str();
        if !s.is_char_boundary(buf_index) {
            return Err(Error::OutOfRange);
        }
        let (head, tail) = s.split_at(buf_index);
        let mut joined = String::from_str(head);
        joined.append(text);
        joined.append(tail);
        proof {
            lemma_encode_utf8_concat(head@, text@);
            lemma_encode_utf8_concat(head@ + text@, tail@);
        }
        let line_info = build_line_info(joined.as_str());
        *self = Buffer { buf: joined, line_info };
        Ok(())
    }

    /// Inserts the character `c` at byte offset `buf_index`.
    pub fn insert_char(&mut self, buf_index: usize, c: char) -> (r: Result<(), Error>)
        ensures
            r is Ok <==> insertable(old(self)@, buf_index as int),
            r is Ok ==> final(self)@ == splice_in(old(self)@, buf_index as int, char_bytes(c)),
            r is Err ==> r == Err::<(), Error>(Error::OutOfRange) && *final(self) == *old(self),
            final(self).line_index() == lines_of(final(self)@),
    {
        proof {
            use_type_invariant(&*self);
            encode_utf8_valid_utf8(self.buf@);
        }
        let s = self.buf.as_str();
        if !s.is_char_boundary(buf_index) {
            return Err(Error::OutOfRange);
        }
        let (head, tail) = s.split_at(buf_index);
        let mut joined = String::from_str(head);
        push_char(&mut joined, c);
        joined.append(tail);
        proof {
            assert(head@.push(c) =~= head@ + seq![c]);
            lemma_char_width(c);
            lemma_encode_utf8_concat(head@, seq![c]);
            lemma_encode_utf8_concat(head@ + seq![c], tail@);
        }
        let line_info = build_line_info(joined.as_str());
        *self = Buffer { buf: joined, line_info };
        Ok(())
    }

    /// Removes the bytes `from ..= to` and returns them as text.
    pub fn remove(&mut self, from: usize, to: usize) -> (r: Result<String, Error>)
        ensures
            r is Ok <==> removable(old(self)@, from as int, to as int),
            r matches Ok(removed) ==> {
                &&& encode_utf8(removed@) == old(self)@.subrange(from as int, to + 1)
                &&& final(self)@ == cut_out(old(self)@, from as int, to as int)
            },
            r is Err ==> r == Err::<String, Error>(Error::OutOfRange) && *final(self) == *old(self),
            final(self).line_index() == lines_of(final(self)@),
    {
        proof {
            use_type_invariant(&*self);
            encode_utf8_valid_utf8(self.buf@);
        }
        let s = self.buf.as_str();
        if from > to || to >= s.len() || !s.is_char_boundary(from) || !s.is_char_boundary(to + 1) {
            return Err(Error::OutOfRange);
        }
        let ghost b = s.spec_bytes();
        let (head, rest) = s.split_at(from);
        proof {
            valid_utf8_split(b, from as int);
            lemma_boundary_local(b, to + 1);
            lemma_boundary_local(rest.spec_bytes(), to + 1 - from);
        }
        let (middle, tail) = rest.split_at(to + 1 - from);
        let removed = String::from_str(middle);
        let mut joined = String::from_str(head);
        joined.append(tail);
        proof {
            lemma_encode_utf8_concat(head@, tail@);
            assert(middle.spec_bytes() =~= b.subrange(from as int, to + 1));
            assert(tail.spec_bytes() =~= b.subrange(to + 1, b.len() as int));
        }
        let line_info = build_line_info(joined.as_str());
        *self = Buffer { buf: joined, line_info };
        Ok(removed)
    }

    /// Removes the character that starts at byte offset `index` and returns
    /// it.
    pub fn remove_char(&mut self, index: usize) -> (r: Result<char, Error>)
        ensures
            r is Ok <==> index < old(self)@.len() && is_char_boundary(old(self)@, index as int),
            r matches Ok(c) ==> {
                &&& c == char_at(old(self)@, index as int)
                &&& old(self)@.subrange(index as int, index + char_width(c)) == char_bytes(c)
                &&& removable(old(self)@, index as int, index + char_width(c) - 1)
                &&& final(self)@ == cut_out(old(self)@, index as int, index + char_width(c) - 1)
            },
            r is Err ==> r == Err::<char, Error>(Error::OutOfRange) && *final(self) == *old(self),
            final(self).line_index() == lines_of(final(self)@),
    {
        proof {
            use_type_invariant(&*self);
            encode_utf8_valid_utf8(self.buf@);
        }
        let s = self.buf.as_str();
        if index >= s.len() || !s.is_char_boundary(index) {
            return Err(Error::OutOfRange);
        }
        let ghost b = s.spec_bytes();
        let (head, rest) = s.split_at(index);
        proof {
            assert(rest.spec_bytes().len() > 0);
            assert(rest@.len() > 0);
        }
        let c = rest.get_char(0);
        let width = char_len(c);
        proof {
            encode_utf8_first_scalar(rest@);
            char_u32_cast(c, decode_first_scalar(rest.spec_bytes()));
            lemma_boundary_step(b, index as int);
            valid_utf8_split(b, index as int);
            lemma_boundary_local(b, index + width);
            lemma_boundary_local(rest.spec_bytes(), width as int);
            assert(rest.spec_bytes() =~= char_bytes(c) + encode_utf8(rest@.drop_first()));
        }
        let (_, tail) = rest.split_at(width);
        let mut joined = String::from_str(head);
        joined.append(tail);
        proof {
            lemma_encode_utf8_concat(head@, tail@);
            assert(tail.spec_bytes() =~= b.subrange(index + width, b.len() as int));
            assert(b.subrange(index as int, index + width) =~= char_bytes(c));
        }
        let line_info = build_line_info(joined.as_str());
        *self = Buffer { buf: joined, line_info };
        Ok(c)
    }

    /// The bytes `from ..= to` as text, which stay in the buffer.
    pub fn slice(&self, from: usize, to: usize) -> (r: Result<&str, Error>)
        ensures
            r is Ok <==> removable(self@, from as int, to as int),
            r matches Ok(s) ==> s.spec_bytes() == self@.subrange(from as int, to + 1),
            r is Err ==> r == Err::<&str, Error>(Error::OutOfRange),
    {
        proof {
            use_type_invariant(self);
            encode_utf8_valid_utf8(self.buf@);
        }
        let s = self.buf.as_str();
        if from > to || to >= s.len() || !s.is_char_boundary(from) || !s.is_char_boundary(to + 1) {
            return Err(Error::OutOfRange);
        }
        let ghost b = s.spec_bytes();
        let (_, rest) = s.split_at(from);
        proof {
            valid_utf8_split(b, from as int);
            lemma_boundary_local(b, to + 1);
            lemma_boundary_local(rest.spec_bytes(), to + 1 - from);
        }
        let (middle, _) = rest.split_at(to + 1 - from);
        proof {
            assert(middle.spec_bytes() =~= b.subrange(from as int, to + 1));
        }
        Ok(middle)
    }

    /// The character that starts at byte offset `index`.
    pub fn char_at(&self, index: usize) -> (r: Result<char, Error>)
        ensures
            r is Ok <==> index < self@.len() && is_char_boundary(self@, index as int),
            r matches Ok(c) ==> {
                &&& c == char_at(self@, index as int)
                &&& self@.subrange(index as int, index + char_width(c)) == char_bytes(c)
                &&& removable(self@, index as int, index + char_width(c) - 1)
            },
            r is Err ==> r == Err::<char, Error>(Error::OutOfRange),
    {
        proof {
            use_type_invariant(self);
            encode_utf8_valid_utf8(self.buf@);
        }
        let s = self.buf.as_str();
        if index >= s.len() || !s.is_char_boundary(index) {
            return Err(Error::OutOfRange);
        }
        let ghost b = s.spec_bytes();
        let (_, rest) = s.split_at(index);
        proof {
            assert(rest.spec_bytes().len() > 0);
            assert(rest@.len() > 0);
        }
        let c = rest.get_char(0);
        proof {
            encode_utf8_first_scalar(rest@);
            char_u32_cast(c, decode_first_scalar(rest.spec_bytes()));
            lemma_boundary_step(b, index as int);
            assert(rest.spec_bytes() =~= char_bytes(c) + encode_utf8(rest@.drop_first()));
            assert(b.subrange(index as int, index + char_width(c)) =~= char_bytes(c));
        }
        Ok(c)
    }

    /// Read-only access to the line index.
    pub fn line_info(&self) -> (l: &Vec<LineInfo>)
        ensures
            l@ == self.line_index(),
            l@ == lines_of(self@),
            l.len() >= 1,
            valid_utf8(self@),
            self@.len() <= usize::MAX,
    {
        proof {
            use_type_invariant(self);
            encode_utf8_valid_utf8(self.buf@);
            lemma_lines_of(encode_utf8(self.buf@));
        }
        &self.line_info
    }

    /// The text of line `index`, its newline excluded.
    pub fn line(&self, index: usize) -> (r: Result<&str, Error>)
        ensures
            r is Ok <==> index < lines_of(self@).len(),
            r matches Ok(s) ==> s.spec_bytes() == self@.subrange(
                lines_of(self@)[index as int].buf_index as int,
                lines_of(self@)[index as int].end(),
            ),
            r is Err ==> r == Err::<&str, Error>(Error::OutOfRange),
    {
        proof {
            use_type_invariant(self);
            encode_utf8_valid_utf8(self.buf@);
        }
        if index >= self.line_info.len() {
            return Err(Error::OutOfRange);
        }
        let info = self.line_info[index];
        let s = self.buf.as_str();
        let ghost b = s.spec_bytes();
        let _ = s.len();
        proof {
            lemma_lines_of(b);
            lemma_line_bounds_are_boundaries(b, index as int);
        }
        let (_, rest) = s.split_at(info.buf_index);
        proof {
            valid_utf8_split(b, info.buf_index as int);
            lemma_boundary_local(b, info.end());
            lemma_boundary_local(rest.spec_bytes(), info.length as int);
        }
        let (line, _) = rest.split_at(info.length);
        proof {
            assert(line.spec_bytes() =~= b.subrange(info.buf_index as int, info.end()));
        }
        Ok(line)
    }

    /// Number of lines; at least one.
    pub fn line_count(&self) -> (n: usize)
        ensures
            n == lines_of(self@).len(),
            n == count_newlines(self@) + 1,
    {
        proof {
            use_type_invariant(self);
            lemma_lines_of(encode_utf8(self.buf@));
        }
        self.line_info.len()
    }

    /// Number of bytes of text.
    pub fn len(&self) -> (n: usize)
        ensures
            n == self@.len(),
            valid_utf8(self@),
    {
        proof {
            use_type_invariant(self);
            encode_utf8_valid_utf8(self.buf@);
        }
        self.buf.as_str().len()
    }

    /// The text.
    pub fn buffer(&self) -> (s: &String)
        ensures
            s@ == self.chars(),
            encode_utf8(s@) == self@,
    {
        &self.buf
    }

    /// Empties the buffer.
    pub fn clear(&mut self)
        ensures
            final(self)@ == Seq::<u8>::empty(),
            final(self).line_index() == lines_of(final(self)@),
    {
        *self = Buffer::new();
    }
}

/// The start and the end of every line are character boundaries.
pub proof fn lemma_line_bounds_are_boundaries(b: Seq<u8>, i: int)
    requires
        valid_utf8(b),
        b.len() <= usize::MAX,
        0 <= i < lines_of(b).len(),
    ensures
        is_char_boundary(b, lines_of(b)[i].buf_index as int),
        is_char_boundary(b, lines_of(b)[i].end()),
{
    let l = lines_of(b);
    lemma_lines_of(b);
    lemma_newline_is_not_continuation();
    lemma_boundary_local(b, l[i].end());
    if i == 0 {
        is_char_boundary_start_end_of_seq(b);
    } else {
        let p = l[i - 1].end();
        assert(l[i].buf_index == p + 1);
        assert(b[p] == NEWLINE);
        lemma_boundary_local(b, p);
        lemma_boundary_step(b, p);
        assert(b.subrange(p, b.len() as int)[0] == NEWLINE);
    }
}

/// A newline byte is a whole character.
pub proof fn lemma_newline_is_not_continuation()
    ensures
        !is_continuation_byte(NEWLINE),
        is_leading_byte_width_1(NEWLINE),
{
}

} // verus!
