//! The line discipline of the terminal: it turns the bytes typed on the
//! console into edited lines, handling the cursor keys, backspace, `^U` and
//! end of file, and echoes what it does to a text screen.

use vstd::prelude::*;
use std::collections::VecDeque;
use crate::errors::SysError;

verus! {

/// A text screen that the line discipline echoes to.
pub trait TextScreen {
    /// Writes bytes at the cursor.
    fn write(&self, buf: &[u8]) -> Result<usize, SysError>;

    /// Clears the whole screen.
    fn clear_screen(&self) -> Result<(), SysError>;

    /// Inserts a space at the cursor, moving the rest of the line right.
    fn insert_whitespace_at_cursor(&self);

    /// Deletes the character before the cursor and moves the cursor left.
    fn delete_char_before_cursor(&self);

    /// Moves the cursor left `n` times.
    fn move_cursor_left(&self, n: usize);

    /// Moves the cursor right `n` times.
    fn move_cursor_rigth(&self, n: usize);

    /// Clears the line after the cursor.
    fn clear_to_end_of_line(&self);
}

/// A key, as read from the input bytes.
#[derive(Clone, Copy, Debug, PartialEq, Eq, Structural)]
pub enum Key {
    Eof,
    Down,
    Up,
    Left,
    Right,
    Backspace,
    CtrlU,
    CtrlD,
    Home,
    End,
    Ignored,
    Normal(u8),
}

/// The key the two bytes after an escape stand for.
pub open spec fn spec_from_escape(e: Seq<u8>) -> Key {
    if e[0] == 0x5B && e[1] == 0x44 {
        Key::Left
    } else if e[0] == 0x5B && e[1] == 0x43 {
        Key::Right
    } else if e[0] == 0x5B && e[1] == 0x41 {
        Key::Up
    } else if e[0] == 0x5B && e[1] == 0x42 {
        Key::Down
    } else if e[0] == 0x5B && e[1] == 0x48 {
        Key::Home
    } else if e[0] == 0x5B && e[1] == 0x46 {
        Key::End
    } else {
        Key::Ignored
    }
}

impl Key {
    /// The key of an escape sequence `ESC [ x`: `D`, `C`, `A`, `B`, `H`
    /// and `F` are left, right, up, down, home and end.
    pub fn from_escape(escape_chars: [u8; 2]) -> (r: Key)
        ensures
            r == spec_from_escape(escape_chars@),
    {
        if escape_chars[0] == 0x5B && escape_chars[1] == 0x44 {
            Key::Left
        } else if escape_chars[0] == 0x5B && escape_chars[1] == 0x43 {
            Key::Right
        } else if escape_chars[0] == 0x5B && escape_chars[1] == 0x41 {
            Key::Up
        } else if escape_chars[0] == 0x5B && escape_chars[1] == 0x42 {
            Key::Down
        } else if escape_chars[0] == 0x5B && escape_chars[1] == 0x48 {
            Key::Home
        } else if escape_chars[0] == 0x5B && escape_chars[1] == 0x46 {
            Key::End
        } else {
            Key::Ignored
        }
    }
}

/// The state of a line discipline.
pub struct LineState {
    /// Completed lines, oldest first.
    pub lines: Seq<Seq<u8>>,
    /// The line being edited.
    pub buffer: Seq<u8>,
    /// The cursor within the line being edited.
    pub edit: nat,
    /// How many bytes of an escape sequence have been read, while one is.
    pub escape_idx: Option<nat>,
    /// The bytes read after an escape.
    pub escape: Seq<u8>,
    pub echo: bool,
    pub canonical: bool,
}

/// The state after reading a key from `ch`, and the key.
pub open spec fn read_key_step(s: LineState, ch: u8) -> (LineState, Key) {
    match s.escape_idx {
        Some(i) => {
            let e = s.escape.update(i as int, ch);
            if i + 1 == 2 {
                (LineState { escape_idx: None, escape: e, ..s }, spec_from_escape(e))
            } else {
                (LineState { escape_idx: Some(i + 1), escape: e, ..s }, Key::Ignored)
            }
        },
        None => {
            if ch == 0 {
                (s, Key::Eof)
            } else if ch == 0x1B {
                (LineState { escape_idx: Some(0), ..s }, Key::Ignored)
            } else if ch == 0x08 || ch == 0x7F {
                (s, Key::Backspace)
            } else if ch == 0x15 {
                (s, Key::CtrlU)
            } else if ch == 0x04 {
                (s, Key::CtrlD)
            } else {
                (s, Key::Normal(ch))
            }
        },
    }
}

/// The state after a character is put into the line: a newline or NUL ends
/// the line (it is kept) and moves it to the completed lines; any other
/// byte is inserted at the cursor.
pub open spec fn insert_step(s: LineState, ch: u8) -> LineState {
    if ch == 0x0A || ch == 0 {
        LineState { lines: s.lines.push(s.buffer.push(ch)), buffer: Seq::empty(), edit: 0, ..s }
    } else {
        LineState { buffer: s.buffer.insert(s.edit as int, ch), edit: s.edit + 1, ..s }
    }
}

/// Whether a byte is ASCII white space (space, tab, newline, form feed or
/// carriage return).
pub open spec fn is_ascii_whitespace(b: u8) -> bool {
    b == 0x20 || b == 0x09 || b == 0x0A || b == 0x0C || b == 0x0D
}

/// The state after a key takes effect.
pub open spec fn key_step(s: LineState, key: Key) -> LineState {
    match key {
        Key::Ignored | Key::Down | Key::Up => s,
        Key::Backspace => {
            if s.edit == 0 {
                s
            } else {
                LineState { buffer: s.buffer.remove(s.edit - 1), edit: (s.edit - 1) as nat, ..s }
            }
        },
        Key::CtrlU => LineState { buffer: Seq::empty(), edit: 0, ..s },
        Key::CtrlD => {
            if s.buffer.len() == 0 {
                insert_step(s, 0)
            } else {
                s
            }
        },
        Key::Eof => insert_step(s, 0),
        Key::Home => LineState { edit: 0, ..s },
        Key::End => LineState { edit: s.buffer.len(), ..s },
        Key::Left => {
            if s.edit != 0 {
                LineState { edit: (s.edit - 1) as nat, ..s }
            } else {
                s
            }
        },
        Key::Right => {
            if s.edit < s.buffer.len() {
                LineState { edit: s.edit + 1, ..s }
            } else {
                s
            }
        },
        Key::Normal(ch) => {
            if ch == 0x09 {
                if forall|i: int| 0 <= i < s.buffer.len() ==> is_ascii_whitespace(s.buffer[i]) {
                    insert_step(s, 0x20)
                } else {
                    s
                }
            } else if ch == 0x0D {
                insert_step(s, 0x0A)
            } else {
                insert_step(s, ch)
            }
        },
    }
}

/// The state after one input byte.
pub open spec fn input_step(s: LineState, byte: u8) -> LineState {
    let (s1, key) = read_key_step(s, byte);
    key_step(s1, key)
}

/// One thing the discipline does to its screen.
#[derive(Clone, Copy, Debug, PartialEq, Eq, Structural)]
pub enum ScreenOp {
    /// Writes one byte at the cursor.
    Write(u8),
    /// Inserts a space at the cursor.
    InsertSpace,
    /// Deletes the character before the cursor.
    DeleteBefore,
    /// Moves the cursor left this many times.
    Left(usize),
    /// Moves the cursor right this many times.
    Right(usize),
    /// Clears the line after the cursor.
    ClearToEnd,
}

/// What putting `ch` into the line echoes: the byte itself, after a space
/// is made for it when it goes in before the end of the line.
pub open spec fn insert_echo(s: LineState, ch: u8) -> Seq<ScreenOp> {
    if !s.echo {
        Seq::empty()
    } else if ch == 0x0A || ch == 0 || s.edit == s.buffer.len() {
        seq![ScreenOp::Write(ch)]
    } else {
        seq![ScreenOp::InsertSpace, ScreenOp::Write(ch)]
    }
}

/// What a key echoes to the screen, when echo is on.
pub open spec fn key_echo(s: LineState, key: Key) -> Seq<ScreenOp> {
    if !s.echo {
        Seq::empty()
    } else {
        match key {
            Key::Ignored | Key::Down | Key::Up => Seq::empty(),
            Key::Backspace => if s.edit == 0 {
                Seq::empty()
            } else {
                seq![ScreenOp::DeleteBefore]
            },
            Key::CtrlU => seq![ScreenOp::Left(s.edit as usize), ScreenOp::ClearToEnd],
            Key::CtrlD => if s.buffer.len() == 0 {
                insert_echo(s, 0)
            } else {
                Seq::empty()
            },
            Key::Eof => insert_echo(s, 0),
            Key::Home => seq![ScreenOp::Left(s.edit as usize)],
            Key::End => seq![ScreenOp::Right((s.buffer.len() - s.edit) as usize)],
            Key::Left => if s.edit != 0 {
                seq![ScreenOp::Left(1)]
            } else {
                Seq::empty()
            },
            Key::Right => if s.edit < s.buffer.len() {
                seq![ScreenOp::Right(1)]
            } else {
                Seq::empty()
            },
            Key::Normal(ch) => {
                if ch == 0x09 {
                    if forall|i: int| 0 <= i < s.buffer.len() ==> is_ascii_whitespace(s.buffer[i]) {
                        insert_echo(s, 0x20)
                    } else {
                        Seq::empty()
                    }
                } else if ch == 0x0D {
                    insert_echo(s, 0x0A)
                } else {
                    insert_echo(s, ch)
                }
            },
        }
    }
}

/// What one input byte echoes to the screen.
pub open spec fn input_echo(s: LineState, byte: u8) -> Seq<ScreenOp> {
    let (s1, key) = read_key_step(s, byte);
    key_echo(s1, key)
}

/// Whether a state is consistent: the cursor lies within the line, and an
/// escape sequence has read fewer than two bytes.
pub open spec fn line_state_wf(s: LineState) -> bool {
    &&& s.edit <= s.buffer.len()
    &&& s.escape.len() == 2
    &&& match s.escape_idx {
        Some(i) => i < 2,
        None => true,
    }
}

/// The line discipline of a terminal that echoes to `S`.
pub struct LineDiscipline<S: TextScreen> {
    completed_lines: VecDeque<VecDeque<u8>>,
    line_buffer: VecDeque<u8>,
    edit: usize,
    read_escape_idx: Option<usize>,
    escape_chars: [u8; 2],
    echo: bool,
    canonical: bool,
    text_screen: S,
    /// What was done to the screen so far, in order.
    echoed: Ghost<Seq<ScreenOp>>,
}

/// The contents of a queue of lines.
pub open spec fn lines_view(q: Seq<VecDeque<u8>>) -> Seq<Seq<u8>> {
    q.map_values(|l: VecDeque<u8>| l@)
}

impl<S: TextScreen> LineDiscipline<S> {
    /// The state of the discipline.
    pub closed spec fn state(&self) -> LineState {
        LineState {
            lines: lines_view(self.completed_lines@),
            buffer: self.line_buffer@,
            edit: self.edit as nat,
            escape_idx: match self.read_escape_idx {
                Some(i) => Some(i as nat),
                None => None,
            },
            escape: self.escape_chars@,
            echo: self.echo,
            canonical: self.canonical,
        }
    }

    /// What the discipline did to its screen so far, in order.
    pub closed spec fn echoed(&self) -> Seq<ScreenOp> {
        self.echoed@
    }

    /// Whether the discipline is consistent.
    pub closed spec fn wf(&self) -> bool {
        line_state_wf(self.state())
    }

    /// A discipline with no input yet, echoing, in canonical mode.
    pub fn new(text_screen: S) -> (r: Self)
        ensures
            r.wf(),
            r.state().lines.len() == 0,
            r.state().buffer.len() == 0,
            r.state().edit == 0,
            r.state().escape_idx is None,
            r.state().echo,
            r.state().canonical,
            r.echoed() == Seq::<ScreenOp>::empty(),
    {
        LineDiscipline {
            completed_lines: VecDeque::new(),
            line_buffer: VecDeque::new(),
            edit: 0,
            read_escape_idx: None,
            escape_chars: [0; 2],
            echo: true,
            canonical: true,
            text_screen,
            echoed: Ghost(Seq::empty()),
        }
    }

    /// Whether the discipline hands out whole lines.
    pub fn is_canonical(&self) -> (r: bool)
        ensures
            r == self.state().canonical,
    {
        self.canonical
    }

    /// Takes the oldest completed line, if any.
    pub fn completed_line(&mut self) -> (r: Option<VecDeque<u8>>)
        requires
            old(self).wf(),
        ensures
            final(self).wf(),
            old(self).state().lines.len() == 0 ==> r is None && final(self).state() == old(
                self,
            ).state(),
            old(self).state().lines.len() > 0 ==> r is Some && r->0@ == old(self).state().lines[0]
                && final(self).state() == (LineState {
                lines: old(self).state().lines.drop_first(),
                ..old(self).state()
            }),
            final(self).echoed() == old(self).echoed(),
    {
        let r = self.completed_lines.pop_front();
        proof {
            if r is Some {
                assert(lines_view(self.completed_lines@) =~= lines_view(
                    old(self).completed_lines@,
                ).drop_first());
            }
        }
        r
    }

    /// Reads the key that `ch` gives, or takes `ch` as part of an escape
    /// sequence.
    fn read_key(&mut self, ch: u8) -> (r: Key)
        requires
            old(self).wf(),
        ensures
            final(self).wf(),
            (final(self).state(), r) == read_key_step(old(self).state(), ch),
            final(self).echoed() == old(self).echoed(),
    {
        if let Some(idx) = self.read_escape_idx {
            self.escape_chars[idx] = ch;
            let next = idx + 1;
            if next == 2 {
                self.read_escape_idx = None;
                let k = Key::from_escape(self.escape_chars);
                proof {
                    assert(self.escape_chars@ =~= old(self).escape_chars@.update(idx as int, ch));
                }
                return k;
            }
            self.read_escape_idx = Some(next);
            proof {
                assert(self.escape_chars@ =~= old(self).escape_chars@.update(idx as int, ch));
            }
            return Key::Ignored;
        }
        if ch == 0 {
            Key::Eof
        } else if ch == 0x1B {
            self.read_escape_idx = Some(0);
            Key::Ignored
        } else if ch == 0x08 || ch == 0x7F {
            Key::Backspace
        } else if ch == 0x15 {
            Key::CtrlU
        } else if ch == 0x04 {
            Key::CtrlD
        } else {
            Key::Normal(ch)
        }
    }

    /// Feeds one input byte. Returns whether it completed a line.
    pub fn input_byte(&mut self, byte: u8) -> (r: bool)
        requires
            old(self).wf(),
        ensures
            final(self).wf(),
            final(self).state() == input_step(old(self).state(), byte),
            r == (final(self).state().lines.len() != old(self).state().lines.len()),
            final(self).echoed() == old(self).echoed() + input_echo(old(self).state(), byte),
    {
        let key = self.read_key(byte);
        let lines = self.completed_lines.len();
        let ghost s1 = self.state();
        let ghost e1 = self.echoed@;
        match key {
            Key::Ignored | Key::Down | Key::Up => {},
            Key::Backspace => self.delete_char(),
            Key::CtrlU => {
                self.clear_line();
            },
            Key::CtrlD => {
                if self.line_buffer.len() == 0 {
                    self.insert_char_to_buffer(0);
                }
            },
            Key::Eof => {
                self.insert_char_to_buffer(0);
            },
            Key::Home => {
                if self.echo {
                    self.text_screen.move_cursor_left(self.edit);
                    proof {
                        self.echoed@ = self.echoed@.push(ScreenOp::Left(self.edit));
                    }
                }
                self.edit = 0;
            },
            Key::End => {
                if self.echo {
                    self.text_screen.move_cursor_rigth(self.line_buffer.len() - self.edit);
                    proof {
                        self.echoed@ = self.echoed@.push(ScreenOp::Right((self.line_buffer@.len() - self.edit) as usize));
                    }
                }
                self.edit = self.line_buffer.len();
            },
            Key::Left => {
                if self.edit != 0 {
                    self.edit -= 1;
                    if self.echo {
                        self.text_screen.move_cursor_left(1);
                        proof {
                            self.echoed@ = self.echoed@.push(ScreenOp::Left(1));
                        }
                    }
                }
            },
            Key::Right => {
                if self.edit < self.line_buffer.len() {
                    self.edit += 1;
                    if self.echo {
                        self.text_screen.move_cursor_rigth(1);
                        proof {
                            self.echoed@ = self.echoed@.push(ScreenOp::Right(1));
                        }
                    }
                }
            },
            Key::Normal(ch) => {
                if ch == 0x09 {
                    let mut allow = true;
                    let mut i: usize = 0;
                    while i < self.line_buffer.len()
                        invariant
                            i <= self.line_buffer@.len(),
                            allow == forall|k: int|
                                0 <= k < i ==> is_ascii_whitespace(self.line_buffer@[k]),
                        decreases self.line_buffer@.len() - i,
                    {
                        let c = self.line_buffer[i];
                        if !(c == 0x20 || c == 0x09 || c == 0x0A || c == 0x0C || c == 0x0D) {
                            allow = false;
                        }
                        i += 1;
                    }
                    if allow {
                        self.insert_char_to_buffer(0x20);
                    }
                } else if ch == 0x0D {
                    self.insert_char_to_buffer(0x0A);
                } else {
                    self.insert_char_to_buffer(ch);
                }
            },
        }
        proof {
            assert(self.state() =~= key_step(s1, key));
            assert(self.echoed@ =~= e1 + key_echo(s1, key));
        }
        lines != self.completed_lines.len()
    }

    /// Puts a character into the line: a newline or NUL ends it.
    fn insert_char_to_buffer(&mut self, ch: u8)
        requires
            old(self).wf(),
        ensures
            final(self).wf(),
            final(self).state() == insert_step(old(self).state(), ch),
            final(self).echoed() == old(self).echoed() + insert_echo(old(self).state(), ch),
    {
        if ch == 0x0A || ch == 0 {
            self.edit = 0;
            self.line_buffer.push_back(ch);
            let mut line: VecDeque<u8> = VecDeque::new();
            core::mem::swap(&mut line, &mut self.line_buffer);
            self.completed_lines.push_back(line);
            self.echo_byte(ch);
            proof {
                assert(lines_view(self.completed_lines@) =~= lines_view(
                    old(self).completed_lines@,
                ).push(old(self).line_buffer@.push(ch)));
                assert(self.state() =~= insert_step(old(self).state(), ch));
                assert(self.echoed@ =~= old(self).echoed@ + insert_echo(old(self).state(), ch));
            }
        } else {
            self.line_buffer.insert(self.edit, ch);
            let len = self.line_buffer.len();
            assert(self.edit < len);
            self.edit += 1;
            if self.echo && self.edit != self.line_buffer.len() {
                self.text_screen.insert_whitespace_at_cursor();
                proof {
                    self.echoed@ = self.echoed@.push(ScreenOp::InsertSpace);
                }
            }
            self.echo_byte(ch);
            proof {
                assert(self.state() =~= insert_step(old(self).state(), ch));
                assert(self.echoed@ =~= old(self).echoed@ + insert_echo(old(self).state(), ch));
            }
        }
    }

    /// Deletes the character before the cursor.
    fn delete_char(&mut self)
        requires
            old(self).wf(),
        ensures
            final(self).wf(),
            final(self).state() == key_step(old(self).state(), Key::Backspace),
            final(self).echoed() == old(self).echoed() + key_echo(old(self).state(), Key::Backspace),
    {
        if self.edit == 0 {
            proof {
                assert(self.echoed@ =~= old(self).echoed@ + key_echo(old(self).state(), Key::Backspace));
            }
            return;
        }
        if self.echo {
            self.text_screen.delete_char_before_cursor();
            proof {
                self.echoed@ = self.echoed@.push(ScreenOp::DeleteBefore);
            }
        }
        self.line_buffer.remove(self.edit - 1);
        self.edit -= 1;
        proof {
            assert(self.state() =~= key_step(old(self).state(), Key::Backspace));
            assert(self.echoed@ =~= old(self).echoed@ + key_echo(old(self).state(), Key::Backspace));
        }
    }

    /// Clears the line being edited.
    fn clear_line(&mut self)
        requires
            old(self).wf(),
        ensures
            final(self).wf(),
            final(self).state() == key_step(old(self).state(), Key::CtrlU),
            final(self).echoed() == old(self).echoed() + key_echo(old(self).state(), Key::CtrlU),
    {
        if self.echo {
            self.text_screen.move_cursor_left(self.edit);
            proof {
                self.echoed@ = self.echoed@.push(ScreenOp::Left(self.edit));
            }
            self.text_screen.clear_to_end_of_line();
            proof {
                self.echoed@ = self.echoed@.push(ScreenOp::ClearToEnd);
            }
        }
        self.line_buffer.clear();
        self.edit = 0;
        proof {
            assert(self.state() =~= key_step(old(self).state(), Key::CtrlU));
            assert(self.echoed@ =~= old(self).echoed@ + key_echo(old(self).state(), Key::CtrlU));
        }
    }

    /// Echoes a byte to the screen when echo is on.
    fn echo_byte(&mut self, byte: u8)
        ensures
            final(self).state() == old(self).state(),
            final(self).echoed() == old(self).echoed() + (if old(self).state().echo {
                seq![ScreenOp::Write(byte)]
            } else {
                Seq::<ScreenOp>::empty()
            }),
    {
        if self.echo {
            let _ = self.text_screen.write(&[byte]);
            proof {
                self.echoed@ = self.echoed@.push(ScreenOp::Write(byte));
            }
        }
        proof {
            assert(self.echoed@ =~= old(self).echoed@ + (if old(self).state().echo {
                seq![ScreenOp::Write(byte)]
            } else {
                Seq::<ScreenOp>::empty()
            }));
        }
    }
}

/// The state after the escape sequence `ESC [ x`, fed byte by byte.
pub open spec fn after_escape(s: LineState, x: u8) -> LineState {
    input_step(input_step(input_step(s, 0x1B), 0x5B), x)
}

/// The cursor keys, `ESC [ D`, `ESC [ C`, `ESC [ H` and `ESC [ F`, move
/// the cursor one place left, one place right (never past either end of
/// the line), to the start and to the end of the line; `ESC [ A` and
/// `ESC [ B` leave it where it is, and so does any other `ESC [ x`. None
/// of them changes the lines or the line being edited, and each leaves no
/// escape pending.
pub proof fn lemma_cursor_keys(s: LineState)
    requires
        line_state_wf(s),
        s.escape_idx is None,
    ensures
        forall|x: u8|
            x == 0x44 || x == 0x43 || x == 0x48 || x == 0x46 || x == 0x41 || x == 0x42 ==> {
                let t = #[trigger] after_escape(s, x);
                &&& t.lines == s.lines
                &&& t.buffer == s.buffer
                &&& t.escape_idx is None
                &&& line_state_wf(t)
            },
        after_escape(s, 0x44).edit == (if s.edit > 0 {
            s.edit - 1
        } else {
            0int
        }),
        after_escape(s, 0x43).edit == (if s.edit < s.buffer.len() {
            s.edit + 1
        } else {
            s.edit
        }),
        after_escape(s, 0x48).edit == 0,
        after_escape(s, 0x46).edit == s.buffer.len(),
        after_escape(s, 0x41).edit == s.edit,
        after_escape(s, 0x42).edit == s.edit,
        forall|x: u8|
            !(x == 0x44 || x == 0x43 || x == 0x48 || x == 0x46 || x == 0x41 || x == 0x42) ==> {
                let t = #[trigger] after_escape(s, x);
                &&& t.lines == s.lines
                &&& t.buffer == s.buffer
                &&& t.edit == s.edit
                &&& t.escape_idx is None
            },
{
    assert forall|x: u8|
        !(x == 0x44 || x == 0x43 || x == 0x48 || x == 0x46 || x == 0x41 || x == 0x42) implies {
            let t = #[trigger] after_escape(s, x);
            &&& t.lines == s.lines
            &&& t.buffer == s.buffer
            &&& t.edit == s.edit
            &&& t.escape_idx is None
        } by {
        let s1 = input_step(s, 0x1B);
        let s2 = input_step(s1, 0x5B);
        assert(s2.escape.update(1, x)[0] == 0x5B);
        assert(s2.escape.update(1, x)[1] == x);
    }
    assert forall|x: u8|
        x == 0x44 || x == 0x43 || x == 0x48 || x == 0x46 || x == 0x41 || x == 0x42 implies {
            let t = #[trigger] after_escape(s, x);
            &&& t.lines == s.lines
            &&& t.buffer == s.buffer
            &&& t.escape_idx is None
            &&& line_state_wf(t)
        } by {
        let s1 = input_step(s, 0x1B);
        let s2 = input_step(s1, 0x5B);
        assert(s2.escape[0] == 0x5B);
        assert(s2.escape[1] == s.escape[1]);
        assert(s2.escape.update(1, x)[0] == 0x5B);
        assert(s2.escape.update(1, x)[1] == x);
    }
    let t = s.escape.update(0, 0x5Bu8);
    assert(t[0] == 0x5B);
    assert(t.update(1, 0x44u8)[0] == 0x5B && t.update(1, 0x44u8)[1] == 0x44);
    assert(t.update(1, 0x43u8)[0] == 0x5B && t.update(1, 0x43u8)[1] == 0x43);
    assert(t.update(1, 0x48u8)[0] == 0x5B && t.update(1, 0x48u8)[1] == 0x48);
    assert(t.update(1, 0x46u8)[0] == 0x5B && t.update(1, 0x46u8)[1] == 0x46);
    assert(t.update(1, 0x41u8)[0] == 0x5B && t.update(1, 0x41u8)[1] == 0x41);
    assert(t.update(1, 0x42u8)[0] == 0x5B && t.update(1, 0x42u8)[1] == 0x42);
}

/// Typing a line and a newline completes exactly that line: every byte of
/// a line with no control characters goes in at the cursor, and the
/// newline moves the whole line (with the newline) to the completed lines.
pub proof fn lemma_typed_byte_is_inserted(s: LineState, b: u8)
    requires
        line_state_wf(s),
        s.escape_idx is None,
        0x20 <= b < 0x7F,
    ensures
        input_step(s, b) == (LineState { buffer: s.buffer.insert(s.edit as int, b), edit: s.edit + 1, ..s }),
{
}

/// A newline (or carriage return) ends the line being edited: it becomes
/// the newest completed line, with a newline at its end.
pub proof fn lemma_newline_completes_line(s: LineState, b: u8)
    requires
        line_state_wf(s),
        s.escape_idx is None,
        b == 0x0A || b == 0x0D,
    ensures
        input_step(s, b).lines == s.lines.push(s.buffer.push(0x0A)),
        input_step(s, b).buffer.len() == 0,
        input_step(s, b).edit == 0,
{
}

/// Input never takes completed lines away: there are as many or one more
/// after each byte.
pub proof fn lemma_lines_grow(s: LineState, b: u8)
    ensures
        input_step(s, b).lines.len() >= s.lines.len(),
        input_step(s, b).lines.len() <= s.lines.len() + 1,
{
}

} // verus!
