//! The editor state: a buffer, a cursor, an editing mode, and the log of
//! the operations made.

use crate::buffer::{lemma_lines_of, lines_of, Buffer, NEWLINE};
use crate::buffer_operator::BufferOperator;
use crate::cursor::Cursor;
use crate::error::Error;
use crate::operation::{lemma_inverse_is_undo, lemma_undo_apply, Operation};
use crate::text::{char_at, insertable, lemma_boundary_local, lemma_boundary_step, removable};
use vstd::prelude::*;
use vstd::string::*;
use vstd::utf8::*;

verus! {

/// The byte that separates the words of a command.
pub const SPACE: u8 = 32;

/// The command that ends the editor.
pub const KEY_QUIT: u8 = 113;

/// The command that writes the text to a file.
pub const KEY_WRITE: u8 = 119;

/// The editing mode.
#[derive(Copy, Clone, Debug, PartialEq, Eq, Structural)]
pub enum Mode {
    Normal,
    Insert,
    Command,
    VisualChar { start: u64 },
    VisualLine { start: u64 },
    VisualBlock { start: u64 },
}

/// A key press.
#[derive(Copy, Clone, Debug, PartialEq, Eq, Structural)]
pub enum Event {
    Backspace,
    Enter,
    Esc,
    Char(char),
}

/// The parameters that an editor command takes.
pub struct TedOperation {
    pub args: Vec<ParameterType>,
}

/// The kind of one parameter of an editor command.
#[derive(Copy, Clone, Debug, PartialEq, Eq, Structural)]
pub enum ParameterType {
    Position,
}

/// The editor.
pub struct Ted {
    path: Option<String>,
    mode: Mode,
    pub scroll: u64,
    pub height: u64,
    pub cursor: Cursor,
    buf_op: BufferOperator,
    cmd_buffer: BufferOperator,
    pub log: Vec<Operation>,
    pub log_index: usize,
    pub cmd_log: Vec<String>,
    pub dirty: bool,
    running: bool,
}

/// The editor as a mathematical value.
#[verifier::ext_equal]
pub struct TedView {
    /// The bytes of the text.
    pub text: Seq<u8>,
    /// The bytes of the command line.
    pub command: Seq<u8>,
    pub mode: Mode,
    pub cursor: Cursor,
    pub scroll: u64,
    pub height: u64,
    pub log: Seq<Operation>,
    pub log_index: usize,
    pub cmd_log: Seq<Seq<char>>,
    pub dirty: bool,
    pub buffer_dirty: bool,
    pub running: bool,
    pub path: Option<Seq<char>>,
}

/// What an event leads to: the next state, the file to which the caller is
/// to write the text, if any, and whether the edit that the event asked for
/// was possible.
pub struct Step {
    pub state: TedView,
    pub save: Option<Seq<char>>,
    pub ok: bool,
}

/// A byte that separates words of the text.
pub open spec fn is_blank(byte: u8) -> bool {
    byte == SPACE || byte == NEWLINE
}

/// The start of the word that ends at offset `p`: the least offset from
/// which no blank lies before `p`.
pub open spec fn word_start(b: Seq<u8>, p: int) -> int
    decreases p,
{
    if 0 < p <= b.len() && !is_blank(b[p - 1]) {
        word_start(b, p - 1)
    } else {
        p
    }
}

/// Where a run of non-blank bytes that leads up to offset `p` stops when it
/// is followed forward, at the latest on the last byte.
pub open spec fn word_stop(b: Seq<u8>, p: int) -> int
    decreases b.len() - p,
{
    if 0 < p && p + 1 < b.len() && !is_blank(b[p - 1]) {
        word_stop(b, p + 1)
    } else {
        p
    }
}

/// Where the motion to the previous word takes offset `p`.
pub open spec fn word_back(b: Seq<u8>, p: int) -> int {
    if 0 < p <= b.len() && is_blank(b[p - 1]) {
        word_start(b, p - 1)
    } else {
        word_start(b, p)
    }
}

/// Where the motion to the next word takes offset `p`.
pub open spec fn word_forward(b: Seq<u8>, p: int) -> int {
    if p + 1 < b.len() && (p == 0 || is_blank(b[p - 1])) {
        word_stop(b, p + 1)
    } else {
        word_stop(b, p)
    }
}

/// The first offset at or behind `from` that holds a space, or the length
/// of `b` if there is none.
pub open spec fn word_end(b: Seq<u8>, from: int) -> int
    decreases b.len() - from,
{
    if 0 <= from < b.len() && b[from] != SPACE {
        word_end(b, from + 1)
    } else {
        from
    }
}

/// The scroll offset after the cursor has moved up to `line`.
pub open spec fn scrolled_up(scroll: u64, line: u64) -> u64 {
    if scroll > line {
        line
    } else {
        scroll
    }
}

/// The scroll offset after the cursor has moved down to `line` in a window
/// of `height` lines.
pub open spec fn scrolled_down(scroll: u64, height: u64, line: u64) -> u64 {
    if height > 0 && scroll + height <= line {
        (line - (height - 1)) as u64
    } else {
        scroll
    }
}

/// The log after `op` has been logged: what lies behind the current entry
/// is dropped, and `op` becomes the last and current entry.
pub open spec fn logged(log: Seq<Operation>, log_index: usize, op: Operation) -> Seq<Operation> {
    if log_index < log.len() {
        log.take(log_index + 1).push(op)
    } else {
        log.push(op)
    }
}

impl TedView {
    /// A fresh editor on `text`.
    pub open spec fn initial(text: Seq<u8>, height: u64, path: Option<Seq<char>>) -> TedView {
        TedView {
            text,
            command: Seq::empty(),
            mode: Mode::Normal,
            cursor: Cursor { line: 0, column: 0, buf_index: 0 },
            scroll: 0,
            height,
            log: Seq::empty(),
            log_index: 0,
            cmd_log: Seq::empty(),
            dirty: true,
            buffer_dirty: true,
            running: true,
            path,
        }
    }

    /// The cursor is within the bounds of the text.
    pub open spec fn wf(self) -> bool {
        self.cursor.within(self.text)
    }

    /// The state with `op` logged.
    pub open spec fn log_op(self, op: Operation) -> TedView {
        TedView {
            log: logged(self.log, self.log_index, op),
            log_index: (logged(self.log, self.log_index, op).len() - 1) as usize,
            ..self
        }
    }

    /// The state after `op` has been executed on the text and the cursor
    /// has followed it.
    pub open spec fn execute(self, op: Operation) -> TedView {
        TedView {
            text: op.apply(self.text),
            cursor: self.cursor.adjusted(op, op.apply(self.text)),
            buffer_dirty: true,
            ..self
        }
    }

    /// The state after `op`, which made the text, has been taken back.
    pub open spec fn revert(self, op: Operation) -> TedView {
        if op.text().len() == 0 {
            self
        } else {
            self.execute(op.inverted())
        }
    }

    /// The state with the cursor moved to `cursor` and the window scrolled
    /// up to it.
    pub open spec fn cursor_up_to(self, cursor: Cursor) -> TedView {
        TedView { cursor, scroll: scrolled_up(self.scroll, cursor.line), dirty: true, ..self }
    }

    /// The state with the cursor moved to `cursor` and the window scrolled
    /// down to it.
    pub open spec fn cursor_down_to(self, cursor: Cursor) -> TedView {
        TedView {
            cursor,
            scroll: scrolled_down(self.scroll, self.height, cursor.line),
            dirty: true,
            ..self
        }
    }

    /// The state after a key press in normal mode.
    pub open spec fn normal_event(self, e: Event) -> TedView {
        match e {
            Event::Char(c) => {
                if c == 'i' {
                    TedView { mode: Mode::Insert, dirty: true, ..self }
                } else if c == ':' {
                    TedView { mode: Mode::Command, dirty: true, ..self }
                } else if c == 'v' {
                    TedView {
                        mode: Mode::VisualChar { start: self.cursor.buf_index },
                        dirty: true,
                        ..self
                    }
                } else if c == 'V' {
                    TedView {
                        mode: Mode::VisualLine { start: self.cursor.buf_index },
                        dirty: true,
                        ..self
                    }
                } else if c == 'h' {
                    self.cursor_up_to(self.cursor.left(self.text))
                } else if c == 'l' {
                    self.cursor_down_to(self.cursor.right(self.text))
                } else if c == 'k' {
                    self.cursor_up_to(self.cursor.up(self.text))
                } else if c == 'j' {
                    self.cursor_down_to(self.cursor.down(self.text))
                } else if c == 'b' {
                    TedView {
                        cursor: Cursor::at_offset(
                            word_back(self.text, self.cursor.buf_index as int),
                            self.text,
                        ),
                        dirty: true,
                        ..self
                    }
                } else if c == 'w' {
                    TedView {
                        cursor: Cursor::at_offset(
                            word_forward(self.text, self.cursor.buf_index as int),
                            self.text,
                        ),
                        dirty: true,
                        ..self
                    }
                } else {
                    self
                }
            },
            _ => self,
        }
    }

    /// Where the cursor goes before a backspace removes the character
    /// under it: to the end of the line above from the start of a line,
    /// else one step to the left.
    pub open spec fn backspace_cursor(self) -> Cursor {
        let lines = lines_of(self.text);
        let c = self.cursor;
        if c.buf_index == lines[c.line as int].buf_index {
            Cursor {
                line: (c.line - 1) as u64,
                column: lines[c.line - 1].length as u64,
                buf_index: (c.buf_index - 1) as u64,
            }
        } else {
            c.left(self.text)
        }
    }

    /// The state after `op` has been made at the cursor: executed and
    /// logged.
    pub open spec fn edit(self, op: Operation) -> TedView {
        self.execute(op).log_op(op)
    }

    /// The step that a key press in insert mode leads to.
    pub open spec fn insert_event(self, e: Event) -> Step {
        match e {
            Event::Esc => Step {
                state: TedView { mode: Mode::Normal, dirty: true, ..self },
                save: None,
                ok: true,
            },
            Event::Backspace => {
                if self.cursor.buf_index == 0 {
                    Step { state: self, save: None, ok: true }
                } else {
                    let moved = TedView { cursor: self.backspace_cursor(), ..self };
                    let index = moved.cursor.buf_index;
                    if index < self.text.len() && is_char_boundary(self.text, index as int) {
                        Step {
                            state: moved.edit(
                                Operation::RemoveChar(index, char_at(self.text, index as int)),
                            ),
                            save: None,
                            ok: true,
                        }
                    } else {
                        Step { state: moved, save: None, ok: false }
                    }
                }
            },
            Event::Enter => {
                if insertable(self.text, self.cursor.buf_index as int) {
                    let next = self.edit(Operation::InsertChar(self.cursor.buf_index, '\n'));
                    Step { state: next.cursor_down_to(next.cursor), save: None, ok: true }
                } else {
                    Step { state: self, save: None, ok: false }
                }
            },
            Event::Char(c) => {
                if insertable(self.text, self.cursor.buf_index as int) {
                    Step {
                        state: self.edit(Operation::InsertChar(self.cursor.buf_index, c)),
                        save: None,
                        ok: true,
                    }
                } else {
                    Step { state: self, save: None, ok: false }
                }
            },
        }
    }

    /// The state after the command `cmd` has been executed, and the file to
    /// write the text to, if the command asks for that. `q` stops the
    /// editor; `w` followed by a space and a path names the file and writes
    /// to it; `w` alone writes to the file that the text belongs to.
    pub open spec fn command(self, cmd: Seq<char>) -> (TedView, Option<Seq<char>>) {
        let b = encode_utf8(cmd);
        let first_end = word_end(b, 0);
        let running = self.running && b != seq![KEY_QUIT];
        let cmd_log = self.cmd_log.push(cmd);
        if b.take(first_end) == seq![KEY_WRITE] {
            if first_end < b.len() {
                let path = decode_utf8(b.subrange(first_end + 1, word_end(b, first_end + 1)));
                (TedView { running, cmd_log, path: Some(path), ..self }, Some(path))
            } else {
                (TedView { running, cmd_log, ..self }, self.path)
            }
        } else {
            (TedView { running, cmd_log, ..self }, None)
        }
    }

    /// The step that a key press in command mode leads to.
    pub open spec fn command_event(self, e: Event) -> Step {
        match e {
            Event::Backspace => {
                if self.command.len() == 0 {
                    Step { state: self, save: None, ok: true }
                } else if is_char_boundary(self.command, self.command.len() - 1) {
                    Step {
                        state: TedView {
                            command: self.command.take(self.command.len() - 1),
                            dirty: true,
                            ..self
                        },
                        save: None,
                        ok: true,
                    }
                } else {
                    Step { state: self, save: None, ok: false }
                }
            },
            Event::Char(c) => Step {
                state: TedView {
                    command: self.command + crate::text::char_bytes(c),
                    dirty: true,
                    ..self
                },
                save: None,
                ok: true,
            },
            Event::Enter => {
                let (next, save) = self.command(decode_utf8(self.command));
                Step {
                    state: TedView {
                        command: Seq::empty(),
                        mode: Mode::Normal,
                        dirty: true,
                        ..next
                    },
                    save,
                    ok: true,
                }
            },
            Event::Esc => Step {
                state: TedView { mode: Mode::Normal, dirty: true, ..self },
                save: None,
                ok: true,
            },
        }
    }

    /// The state after a key press in one of the visual modes.
    pub open spec fn visual_event(self, e: Event) -> TedView {
        match e {
            Event::Esc => TedView { mode: Mode::Normal, dirty: true, ..self },
            _ => self,
        }
    }

    /// The step that a key press leads to in the mode that the editor is in.
    pub open spec fn event(self, e: Event) -> Step {
        match self.mode {
            Mode::Normal => Step { state: self.normal_event(e), save: None, ok: true },
            Mode::Insert => self.insert_event(e),
            Mode::Command => self.command_event(e),
            _ => Step { state: self.visual_event(e), save: None, ok: true },
        }
    }
}

/// The view of an optional path.
pub open spec fn path_view(path: Option<String>) -> Option<Seq<char>> {
    match path {
        Some(p) => Some(p@),
        None => None,
    }
}

/// The views of the logged commands.
pub open spec fn cmd_log_view(cmd_log: Seq<String>) -> Seq<Seq<char>> {
    Seq::new(cmd_log.len(), |i: int| cmd_log[i]@)
}

impl View for Ted {
    type V = TedView;

    closed spec fn view(&self) -> TedView {
        TedView {
            text: self.buf_op@,
            command: self.cmd_buffer@,
            mode: self.mode,
            cursor: self.cursor,
            scroll: self.scroll,
            height: self.height,
            log: self.log@,
            log_index: self.log_index,
            cmd_log: cmd_log_view(self.cmd_log@),
            dirty: self.dirty,
            buffer_dirty: self.buf_op.is_dirty(),
            running: self.running,
            path: path_view(self.path),
        }
    }
}

/// Tells whether `byte` separates words of the text.
fn is_blank_byte(byte: u8) -> (blank: bool)
    ensures
        blank == is_blank(byte),
{
    byte == SPACE || byte == NEWLINE
}

/// The first offset at or behind `from` that holds a space, or the length
/// of `bytes`.
fn find_space(bytes: &[u8], from: usize) -> (p: usize)
    requires
        from <= bytes@.len(),
    ensures
        p == word_end(bytes@, from as int),
        from <= p <= bytes@.len(),
        p < bytes@.len() ==> bytes@[p as int] == SPACE,
{
    let mut p = from;
    while p < bytes.len() && bytes[p] != SPACE
        invariant
            from <= p <= bytes@.len(),
            word_end(bytes@, p as int) == word_end(bytes@, from as int),
        decreases bytes@.len() - p,
    {
        p = p + 1;
    }
    p
}

impl Ted {
    /// An editor on an empty text in a window of `height` lines.
    pub fn new(height: u64) -> (ted: Ted)
        ensures
            ted@ == TedView::initial(Seq::empty(), height, None),
            ted@.wf(),
    {
        let ted = Ted {
            path: None,
            mode: Mode::Normal,
            scroll: 0,
            height,
            cursor: Cursor { line: 0, column: 0, buf_index: 0 },
            buf_op: BufferOperator::new(),
            cmd_buffer: BufferOperator::new(),
            log: Vec::new(),
            log_index: 0,
            cmd_log: Vec::new(),
            dirty: true,
            running: true,
        };
        proof {
            lemma_lines_of(ted@.text);
            assert(ted@ =~= TedView::initial(Seq::empty(), height, None));
        }
        ted
    }

    /// An editor on `text` in a window of `height` lines.
    pub fn from_string(height: u64, text: String) -> (ted: Ted)
        ensures
            ted@ == TedView::initial(encode_utf8(text@), height, None),
            ted@.wf(),
    {
        let buf_op = BufferOperator::from_string(text);
        let _ = buf_op.len();
        let ted = Ted {
            path: None,
            mode: Mode::Normal,
            scroll: 0,
            height,
            cursor: Cursor { line: 0, column: 0, buf_index: 0 },
            buf_op,
            cmd_buffer: BufferOperator::new(),
            log: Vec::new(),
            log_index: 0,
            cmd_log: Vec::new(),
            dirty: true,
            running: true,
        };
        proof {
            lemma_lines_of(ted@.text);
            assert(ted@ =~= TedView::initial(encode_utf8(text@), height, None));
        }
        ted
    }

    /// An editor on the contents of the file at `path`, which the caller
    /// has read.
    pub fn from_file(height: u64, path: String, file_contents: String) -> (ted: Ted)
        ensures
            ted@ == TedView::initial(encode_utf8(file_contents@), height, Some(path@)),
            ted@.wf(),
    {
        let buf_op = BufferOperator::from_file(path.clone(), file_contents);
        let _ = buf_op.len();
        let ted = Ted {
            path: Some(path),
            mode: Mode::Normal,
            scroll: 0,
            height,
            cursor: Cursor { line: 0, column: 0, buf_index: 0 },
            buf_op,
            cmd_buffer: BufferOperator::new(),
            log: Vec::new(),
            log_index: 0,
            cmd_log: Vec::new(),
            dirty: true,
            running: true,
        };
        proof {
            lemma_lines_of(ted@.text);
            assert(ted@ =~= TedView::initial(encode_utf8(file_contents@), height, Some(path@)));
        }
        ted
    }

    /// Handles a key press in the mode that the editor is in. Returns the
    /// file to which the caller is to write the text, if the key press
    /// asked for that, and `OutOfRange` if it asked for an edit at an offset
    /// inside a character.
    pub fn handle_event(&mut self, e: Event) -> (r: Result<Option<String>, Error>)
        requires
            old(self)@.wf(),
        ensures
            final(self)@ == old(self)@.event(e).state,
            final(self)@.wf(),
            r is Ok <==> old(self)@.event(e).ok,
            r matches Ok(save) ==> path_view(save) == old(self)@.event(e).save,
            r is Err ==> r == Err::<Option<String>, Error>(Error::OutOfRange),
    {
        match self.mode {
            Mode::Normal => {
                self.normal_handle_event(e);
                Ok(None)
            },
            Mode::Insert => {
                match self.insert_handle_event(e) {
                    Ok(()) => Ok(None),
                    Err(err) => Err(err),
                }
            },
            Mode::Command => self.command_handle_event(e),
            Mode::VisualChar { start: _ } => {
                self.visual_char_handle_event(e);
                Ok(None)
            },
            Mode::VisualLine { start: _ } => {
                self.visual_line_handle_event(e);
                Ok(None)
            },
            Mode::VisualBlock { start: _ } => {
                self.visual_block_handle_event(e);
                Ok(None)
            },
        }
    }

    /// Executes the command `cmd` and logs it. Returns the file to which
    /// the caller is to write the text, if the command asks for that.
    pub fn execute_command(&mut self, cmd: String) -> (save: Option<String>)
        ensures
            final(self)@ == old(self)@.command(cmd@).0,
            path_view(save) == old(self)@.command(cmd@).1,
            final(self)@.wf() == old(self)@.wf(),
    {
        let s = cmd.as_str();
        let bytes = s.as_bytes();
        let n = bytes.len();
        let ghost b = bytes@;
        proof {
            encode_utf8_valid_utf8(cmd@);
        }
        let first_end = find_space(bytes, 0);
        if n == 1 && bytes[0] == KEY_QUIT {
            self.running = false;
        }
        proof {
            if n == 1 && b[0] == KEY_QUIT {
                assert(b =~= seq![KEY_QUIT]);
            }
        }
        let mut save: Option<String> = None;
        let writes = first_end == 1 && bytes[0] == KEY_WRITE;
        proof {
            if writes {
                assert(b.take(first_end as int) =~= seq![KEY_WRITE]);
            } else if b.take(first_end as int) == seq![KEY_WRITE] {
                assert(b.take(first_end as int).len() == 1);
                assert(b.take(first_end as int)[0] == b[0]);
            }
        }
        if writes {
            if first_end < n {
                let arg_end = find_space(bytes, first_end + 1);
                proof {
                    lemma_boundary_local(b, first_end as int);
                    lemma_boundary_step(b, first_end as int);
                    assert(b.subrange(first_end as int, b.len() as int)[0] == SPACE);
                    lemma_boundary_local(b, arg_end as int);
                }
                let (_, rest) = s.split_at(first_end + 1);
                proof {
                    valid_utf8_split(b, first_end + 1);
                    lemma_boundary_local(rest.spec_bytes(), arg_end - (first_end + 1));
                }
                let (arg, _) = rest.split_at(arg_end - (first_end + 1));
                let path = String::from_str(arg);
                proof {
                    assert(arg.spec_bytes() =~= b.subrange(first_end + 1, arg_end as int));
                    encode_utf8_decode_utf8(arg@);
                }
                self.path = Some(path.clone());
                save = Some(path);
            } else {
                save =
                match &self.path {
                    Some(p) => Some(p.clone()),
                    None => None,
                };
            }
        }
        self.cmd_log.push(cmd);
        proof {
            assert(cmd_log_view(self.cmd_log@) =~= cmd_log_view(old(self).cmd_log@).push(cmd@));
            assert(self@ =~= old(self)@.command(cmd@).0);
        }
        save
    }

    /// Handles a key press in normal mode.
    fn normal_handle_event(&mut self, e: Event)
        requires
            old(self)@.wf(),
        ensures
            final(self)@ == old(self)@.normal_event(e),
            final(self)@.wf(),
    {
        match e {
            Event::Char(c) => {
                if c == 'i' {
                    self.mode = Mode::Insert;
                    self.dirty = true;
                } else if c == ':' {
                    self.mode = Mode::Command;
                    self.dirty = true;
                } else if c == 'v' {
                    self.mode = Mode::VisualChar { start: self.cursor.buf_index };
                    self.dirty = true;
                } else if c == 'V' {
                    self.mode = Mode::VisualLine { start: self.cursor.buf_index };
                    self.dirty = true;
                } else if c == 'h' {
                    self.cursor_left();
                } else if c == 'l' {
                    self.cursor_right();
                } else if c == 'k' {
                    self.cursor_up();
                } else if c == 'j' {
                    self.cursor_down();
                } else if c == 'b' {
                    self.word_backward();
                } else if c == 'w' {
                    self.word_onward();
                }
            },
            _ => {},
        }
    }

    /// Moves the cursor to the start of the word before it.
    fn word_backward(&mut self)
        requires
            old(self)@.wf(),
        ensures
            final(self)@ == (TedView {
                cursor: Cursor::at_offset(
                    word_back(old(self)@.text, old(self)@.cursor.buf_index as int),
                    old(self)@.text,
                ),
                dirty: true,
                ..old(self)@
            }),
            final(self)@.wf(),
    {
        let bytes = self.buf_op.buffer_bytes();
        let ghost b = bytes@;
        let _ = bytes.len();
        proof {
            lemma_lines_of(b);
        }
        let mut index = self.cursor.buf_index;
        if index > 0 && is_blank_byte(bytes[(index - 1) as usize]) {
            index -= 1;
        }
        let ghost from = index as int;
        while index > 0 && !is_blank_byte(bytes[(index - 1) as usize])
            invariant
                index <= from <= b.len() <= usize::MAX,
                b == bytes@,
                word_start(b, index as int) == word_start(b, from),
            decreases index,
        {
            index -= 1;
        }
        self.cursor.buf_index = index;
        self.cursor.calculate_pos(self.buf_op.buffer());
        self.dirty = true;
    }

    /// Moves the cursor onward over the word under it.
    fn word_onward(&mut self)
        requires
            old(self)@.wf(),
        ensures
            final(self)@ == (TedView {
                cursor: Cursor::at_offset(
                    word_forward(old(self)@.text, old(self)@.cursor.buf_index as int),
                    old(self)@.text,
                ),
                dirty: true,
                ..old(self)@
            }),
            final(self)@.wf(),
    {
        let bytes = self.buf_op.buffer_bytes();
        let ghost b = bytes@;
        let len = bytes.len() as u64;
        proof {
            lemma_lines_of(b);
        }
        let mut index = self.cursor.buf_index;
        if len - index > 1 && (index == 0 || is_blank_byte(bytes[(index - 1) as usize])) {
            index += 1;
        }
        let ghost from = index as int;
        while len - index > 1 && index > 0 && !is_blank_byte(bytes[(index - 1) as usize])
            invariant
                from <= index <= len == b.len() <= usize::MAX,
                b == bytes@,
                word_stop(b, index as int) == word_stop(b, from),
            decreases len - index,
        {
            index += 1;
        }
        self.cursor.buf_index = index;
        self.cursor.calculate_pos(self.buf_op.buffer());
        self.dirty = true;
    }

    /// Executes `op`, which the caller has just made on the buffer, on the
    /// rest of the state: the cursor follows it and it is logged.
    fn follow_edit(&mut self, op: Operation, Ghost(before): Ghost<TedView>)
        requires
            before.wf(),
            before.text.len() <= usize::MAX,
            op.legal(before.text),
            old(self)@ == (TedView {
                text: op.apply(before.text),
                buffer_dirty: true,
                ..before
            }),
        ensures
            final(self)@ == before.edit(op),
            final(self)@.wf(),
    {
        let _ = self.buf_op.len();
        proof {
            lemma_undo_apply(op, before.text);
            lemma_lines_of(before.text);
        }
        self.cursor.op_adjust_cursor(self.buf_op.buffer(), &op);
        self.log(op);
    }

    /// Handles a key press in insert mode.
    fn insert_handle_event(&mut self, e: Event) -> (r: Result<(), Error>)
        requires
            old(self)@.wf(),
        ensures
            final(self)@ == old(self)@.insert_event(e).state,
            final(self)@.wf(),
            r is Ok <==> old(self)@.insert_event(e).ok,
            old(self)@.insert_event(e).save is None,
            r is Err ==> r == Err::<(), Error>(Error::OutOfRange),
    {
        match e {
            Event::Esc => {
                self.mode = Mode::Normal;
                self.dirty = true;
                Ok(())
            },
            Event::Backspace => {
                if self.cursor.buf_index > 0 {
                    let lines = self.buf_op.buffer().line_info();
                    proof {
                        lemma_lines_of(self@.text);
                    }
                    if self.cursor.buf_index == lines[self.cursor.line as usize].buf_index as u64 {
                        proof {
                            let l = lines_of(self@.text);
                            let k = self.cursor.line as int;
                            assert(k > 0);
                            assert(l[k].buf_index == l[k - 1].end() + 1);
                        }
                        self.cursor.buf_index -= 1;
                        self.cursor.line -= 1;
                        self.cursor.column = lines[self.cursor.line as usize].length as u64;
                    } else {
                        self.cursor.move_left(self.buf_op.buffer());
                    }
                    let index = self.cursor.buf_index;
                    let ghost moved = self@;
                    let _ = self.buf_op.len();
                    match self.buf_op.remove_char(index) {
                        Ok(op) => {
                            self.follow_edit(op, Ghost(moved));
                            Ok(())
                        },
                        Err(err) => Err(err),
                    }
                } else {
                    Ok(())
                }
            },
            Event::Enter => {
                let index = self.cursor.buf_index;
                let ghost before = self@;
                let _ = self.buf_op.len();
                match self.buf_op.insert_char(index, '\n') {
                    Ok(op) => {
                        self.follow_edit(op, Ghost(before));
                        self.scroll_down();
                        Ok(())
                    },
                    Err(err) => Err(err),
                }
            },
            Event::Char(c) => {
                let index = self.cursor.buf_index;
                let ghost before = self@;
                let _ = self.buf_op.len();
                match self.buf_op.insert_char(index, c) {
                    Ok(op) => {
                        self.follow_edit(op, Ghost(before));
                        Ok(())
                    },
                    Err(err) => Err(err),
                }
            },
        }
    }

    /// Handles a key press in command mode.
    fn command_handle_event(&mut self, e: Event) -> (r: Result<Option<String>, Error>)
        ensures
            final(self)@ == old(self)@.command_event(e).state,
            final(self)@.wf() == old(self)@.wf(),
            r is Ok <==> old(self)@.command_event(e).ok,
            r matches Ok(save) ==> path_view(save) == old(self)@.command_event(e).save,
            r is Err ==> r == Err::<Option<String>, Error>(Error::OutOfRange),
    {
        match e {
            Event::Backspace => {
                let n = self.cmd_buffer.len();
                if n > 0 {
                    let end = (n - 1) as u64;
                    proof {
                        is_char_boundary_start_end_of_seq(self@.command);
                    }
                    match self.cmd_buffer.remove(end, end) {
                        Ok(_) => {
                            self.dirty = true;
                            proof {
                                assert(self@.command =~= old(self)@.command.take(n - 1));
                            }
                            Ok(None)
                        },
                        Err(err) => Err(err),
                    }
                } else {
                    Ok(None)
                }
            },
            Event::Char(c) => {
                let end = self.cmd_buffer.len() as u64;
                proof {
                    is_char_boundary_start_end_of_seq(self@.command);
                }
                let _ = self.cmd_buffer.insert_char(end, c);
                self.dirty = true;
                proof {
                    assert(self@.command =~= old(self)@.command + crate::text::char_bytes(c));
                }
                Ok(None)
            },
            Event::Enter => {
                let command = self.cmd_buffer.buffer().buffer().clone();
                proof {
                    encode_utf8_decode_utf8(command@);
                }
                let save = self.execute_command(command);
                self.cmd_buffer.clear();
                self.mode = Mode::Normal;
                self.dirty = true;
                Ok(save)
            },
            Event::Esc => {
                self.mode = Mode::Normal;
                self.dirty = true;
                Ok(None)
            },
        }
    }

    /// Handles a key press in visual character mode.
    fn visual_char_handle_event(&mut self, e: Event)
        ensures
            final(self)@ == old(self)@.visual_event(e),
    {
        match e {
            Event::Esc => {
                self.mode = Mode::Normal;
                self.dirty = true;
            },
            _ => {},
        }
    }

    /// Handles a key press in visual line mode.
    fn visual_line_handle_event(&mut self, e: Event)
        ensures
            final(self)@ == old(self)@.visual_event(e),
    {
        match e {
            Event::Esc => {
                self.mode = Mode::Normal;
                self.dirty = true;
            },
            _ => {},
        }
    }

    /// Handles a key press in visual block mode.
    fn visual_block_handle_event(&mut self, e: Event)
        ensures
            final(self)@ == old(self)@.visual_event(e),
    {
        match e {
            Event::Esc => {
                self.mode = Mode::Normal;
                self.dirty = true;
            },
            _ => {},
        }
    }

    /// Logs `operation`: the entries behind the current one are dropped,
    /// and `operation` becomes the last and current entry.
    pub fn log(&mut self, operation: Operation)
        ensures
            final(self)@ == old(self)@.log_op(operation),
    {
        if self.log_index < self.log.len() {
            self.log.truncate(self.log_index + 1);
        }
        self.log.push(operation);
        self.log_index = self.log.len() - 1;
    }

    /// Tells whether the editor is well formed: whether the cursor is
    /// within the bounds of the text.
    pub fn is_wf(&self) -> (wf: bool)
        ensures
            wf == self@.wf(),
    {
        self.cursor.is_within(self.buf_op.buffer())
    }

    /// Number of logged operations.
    pub fn log_len(&self) -> (n: usize)
        ensures
            n == self@.log.len(),
    {
        self.log.len()
    }

    /// The logged operation at `index`.
    pub fn log_entry(&self, index: usize) -> (op: &Operation)
        requires
            index < self@.log.len(),
        ensures
            *op == self@.log[index as int],
    {
        &self.log[index]
    }

    /// The logged operation at `index`, to be rewritten in place.
    pub fn log_entry_mut(&mut self, index: usize) -> (op: &mut Operation)
        requires
            index < old(self)@.log.len(),
        ensures
            *op == old(self)@.log[index as int],
            final(self)@ == (TedView {
                log: old(self)@.log.update(index as int, *final(op)),
                ..old(self)@
            }),
    {
        &mut self.log[index]
    }

    /// Takes the operation at `index` out of the log.
    pub fn remove_log_entry(&mut self, index: usize) -> (op: Operation)
        requires
            index < old(self)@.log.len(),
        ensures
            op == old(self)@.log[index as int],
            final(self)@ == (TedView { log: old(self)@.log.remove(index as int), ..old(self)@ }),
    {
        self.log.remove(index)
    }

    /// Number of logged commands.
    pub fn cmd_log_len(&self) -> (n: usize)
        ensures
            n == self@.cmd_log.len(),
    {
        self.cmd_log.len()
    }

    /// The logged command at `index`.
    pub fn cmd_log_entry(&self, index: usize) -> (cmd: &String)
        requires
            index < self@.cmd_log.len(),
        ensures
            cmd@ == self@.cmd_log[index as int],
    {
        &self.cmd_log[index]
    }

    /// The editing mode.
    pub fn mode(&self) -> (mode: Mode)
        ensures
            mode == self@.mode,
    {
        self.mode
    }

    /// The text buffer.
    pub fn buffer(&self) -> (buffer: &Buffer)
        ensures
            buffer@ == self@.text,
    {
        self.buf_op.buffer()
    }

    /// The buffer of the command line.
    pub fn command_buffer(&self) -> (buffer: &Buffer)
        ensures
            buffer@ == self@.command,
    {
        self.cmd_buffer.buffer()
    }

    /// False once the quit command has been executed.
    pub fn running(&self) -> (running: bool)
        ensures
            running == self@.running,
    {
        self.running
    }

    /// Whether the editor or its text has changed since `clean`.
    pub fn is_dirty(&self) -> (dirty: bool)
        ensures
            dirty == (self@.dirty || self@.buffer_dirty),
    {
        self.dirty || self.buf_op.dirty()
    }

    /// Marks the editor and its text as unchanged.
    pub fn clean(&mut self)
        ensures
            final(self)@ == (TedView { dirty: false, buffer_dirty: false, ..old(self)@ }),
    {
        self.dirty = false;
        self.buf_op.set_dirty(false);
    }

    /// Executes `operation` on the text, if it is legal there, and lets the
    /// cursor follow it.
    pub fn do_operation(&mut self, operation: &Operation) -> (r: Result<(), Error>)
        requires
            old(self)@.wf(),
        ensures
            r is Ok <==> operation.legal(old(self)@.text),
            r is Ok ==> final(self)@ == old(self)@.execute(*operation),
            r is Err ==> r == Err::<(), Error>(Error::OutOfRange) && final(self)@ == old(self)@,
            final(self)@.wf(),
    {
        let _ = self.buf_op.len();
        match self.buf_op.do_operation(operation) {
            Ok(()) => {
                let _ = self.buf_op.len();
                proof {
                    lemma_undo_apply(*operation, old(self)@.text);
                    lemma_lines_of(old(self)@.text);
                }
                self.cursor.op_adjust_cursor(self.buf_op.buffer(), operation);
                Ok(())
            },
            Err(err) => Err(err),
        }
    }

    /// Executes an operation that the user of this editor has made: on the
    /// text, with the cursor following, and into the log.
    pub fn apply_local_op(&mut self, operation: Operation) -> (r: Result<(), Error>)
        requires
            old(self)@.wf(),
        ensures
            r is Ok <==> operation.legal(old(self)@.text),
            r is Ok ==> final(self)@ == old(self)@.edit(operation),
            r is Err ==> r == Err::<(), Error>(Error::OutOfRange) && final(self)@ == old(self)@,
            final(self)@.wf(),
    {
        match self.do_operation(&operation) {
            Ok(()) => {
                self.log(operation);
                Ok(())
            },
            Err(err) => Err(err),
        }
    }

    /// Takes back `operation`, if the text is what the operation can have
    /// made, and lets the cursor follow.
    pub fn undo_operation(&mut self, operation: &Operation) -> (r: Result<(), Error>)
        requires
            old(self)@.wf(),
        ensures
            r is Ok <==> operation.wf() && operation.applied(old(self)@.text),
            r is Ok ==> final(self)@ == old(self)@.revert(*operation) && final(self)@.text
                == operation.undo(old(self)@.text),
            r is Err ==> r == Err::<(), Error>(Error::OutOfRange) && final(self)@ == old(self)@,
            final(self)@.wf(),
    {
        let _ = self.buf_op.len();
        if !operation.is_wf() {
            return Err(Error::OutOfRange);
        }
        if operation.width() == 0 {
            let fits = match crate::buffer_operator::to_index(operation.start_offset()) {
                Some(i) => self.buf_op.buffer().buffer().as_str().is_char_boundary(i),
                None => false,
            };
            proof {
                if operation.start() <= self@.text.len() {
                    assert(operation.undo(self@.text) =~= self@.text);
                    assert(operation.apply(self@.text) =~= self@.text);
                }
            }
            return if fits {
                Ok(())
            } else {
                Err(Error::OutOfRange)
            };
        }
        if !operation.is_invertible() {
            return Err(Error::OutOfRange);
        }
        let inverse = operation.clone().inverse();
        proof {
            lemma_inverse_is_undo(*operation, self@.text);
        }
        self.do_operation(&inverse)
    }

    /// Moves the cursor one line up and scrolls the window to it.
    pub fn cursor_up(&mut self)
        requires
            old(self)@.wf(),
        ensures
            final(self)@ == old(self)@.cursor_up_to(old(self)@.cursor.up(old(self)@.text)),
            final(self)@.wf(),
    {
        self.cursor.move_up(self.buf_op.buffer());
        if self.scroll > self.cursor.line {
            self.scroll = self.cursor.line;
        }
        self.dirty = true;
    }

    /// Moves the cursor one line down and scrolls the window to it.
    pub fn cursor_down(&mut self)
        requires
            old(self)@.wf(),
        ensures
            final(self)@ == old(self)@.cursor_down_to(old(self)@.cursor.down(old(self)@.text)),
            final(self)@.wf(),
    {
        self.cursor.move_down(self.buf_op.buffer());
        self.scroll_down();
    }

    /// Moves the cursor one step to the left and scrolls the window to it.
    pub fn cursor_left(&mut self)
        requires
            old(self)@.wf(),
        ensures
            final(self)@ == old(self)@.cursor_up_to(old(self)@.cursor.left(old(self)@.text)),
            final(self)@.wf(),
    {
        self.cursor.move_left(self.buf_op.buffer());
        if self.scroll > self.cursor.line {
            self.scroll = self.cursor.line;
        }
        self.dirty = true;
    }

    /// Moves the cursor one step to the right and scrolls the window to it.
    pub fn cursor_right(&mut self)
        requires
            old(self)@.wf(),
        ensures
            final(self)@ == old(self)@.cursor_down_to(old(self)@.cursor.right(old(self)@.text)),
            final(self)@.wf(),
    {
        self.cursor.move_right(self.buf_op.buffer());
        self.scroll_down();
    }

    /// Scrolls the window down until it shows the line of the cursor.
    fn scroll_down(&mut self)
        ensures
            final(self)@ == old(self)@.cursor_down_to(old(self)@.cursor),
    {
        if self.height > 0 && self.cursor.line >= self.scroll && self.cursor.line - self.scroll
            >= self.height {
            self.scroll = self.cursor.line - (self.height - 1);
        }
        self.dirty = true;
    }
}

} // verus!
