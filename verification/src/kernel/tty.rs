//! The terminal device: which task group owns the terminal, what input is
//! waiting to be read, and what the control keys ask for. Looking up tasks,
//! sending signals and waiting for input happen outside the library, which
//! decides here from what they report.

use vstd::prelude::*;
use std::collections::VecDeque;
use crate::errors::{SysError, SysErrorKind};
use crate::kernel::devices::DeviceInfo;
use crate::kernel::discipline::{LineDiscipline, LineState, TextScreen, input_step};

verus! {

/// The device number of the terminal.
pub const TTY_DEV_NO: u32 = 1;

/// A signal that a control key sends to the foreground task group.
#[derive(Debug, Clone, Copy, PartialEq, Eq, Structural)]
pub enum TtyControl {
    /// Ctrl-C.
    Interrupt,
    /// Ctrl-\.
    Quit,
}

/// The signal a byte sends, if it is a control key.
pub open spec fn spec_control(b: u8) -> Option<TtyControl> {
    if b == 0x03 {
        Some(TtyControl::Interrupt)
    } else if b == 0x1C {
        Some(TtyControl::Quit)
    } else {
        None
    }
}

/// The signal that byte `b` sends, if it is a control key.
pub fn control_signal(b: u8) -> (r: Option<TtyControl>)
    ensures
        r == spec_control(b),
{
    if b == 0x03 {
        Some(TtyControl::Interrupt)
    } else if b == 0x1C {
        Some(TtyControl::Quit)
    } else {
        None
    }
}

/// The signals that input `bytes` sends when a foreground group exists
/// (`fg`), in order.
pub open spec fn input_signals(bytes: Seq<u8>, fg: bool) -> Seq<TtyControl>
    decreases bytes.len(),
{
    if bytes.len() == 0 {
        Seq::empty()
    } else {
        let rest = input_signals(bytes.drop_last(), fg);
        match spec_control(bytes.last()) {
            Some(c) if fg => rest.push(c),
            _ => rest,
        }
    }
}

/// The line state after input `bytes`: control keys go to the foreground
/// group when one exists, every other byte to the line discipline.
pub open spec fn input_all(s: LineState, bytes: Seq<u8>, fg: bool) -> LineState
    decreases bytes.len(),
{
    if bytes.len() == 0 {
        s
    } else {
        let prev = input_all(s, bytes.drop_last(), fg);
        if fg && spec_control(bytes.last()) is Some {
            prev
        } else {
            input_step(prev, bytes.last())
        }
    }
}

/// How a read of the terminal ends.
#[derive(Debug, Clone, Copy, PartialEq, Eq, Structural)]
pub enum TtyRead {
    /// The reader is not in the foreground group: it is to be stopped.
    NotForeground,
    /// The completed line was the end-of-file mark.
    Eof,
    /// This many bytes were read.
    Read(u64),
    /// Nothing to read yet: wait for a line.
    Wait,
}

/// The terminal: its foreground task group (0 for none), the session it is
/// bound to, the bytes of a line not yet read, and its line discipline.
pub struct TtyDevice<S: TextScreen> {
    pub current_tgid: u64,
    pub current_sid: Option<u64>,
    pub current_read_buf: Vec<u8>,
    pub line_discipline: LineDiscipline<S>,
}

impl<S: TextScreen> TtyDevice<S> {
    /// The line discipline is consistent.
    pub open spec fn wf(&self) -> bool {
        self.line_discipline.wf()
    }

    /// A terminal over `text_screen` with no foreground group and no
    /// session.
    pub fn new(text_screen: S) -> (r: Self)
        ensures
            r.wf(),
            r.current_tgid == 0,
            r.current_sid is None,
            r.current_read_buf@.len() == 0,
            r.line_discipline.state().lines.len() == 0,
    {
        TtyDevice {
            current_tgid: 0,
            current_sid: None,
            current_read_buf: Vec::new(),
            line_discipline: LineDiscipline::new(text_screen),
        }
    }

    /// What the terminal reports of itself.
    pub fn info(&self) -> (r: DeviceInfo)
        ensures
            r.device_no == TTY_DEV_NO,
            r.name@ == "tty"@,
            r.file_name@ == "tty"@,
    {
        DeviceInfo { device_no: TTY_DEV_NO, name: "tty", file_name: "tty" }
    }

    /// The foreground task group.
    pub fn get_fg_tgid(&self) -> (r: u64)
        ensures
            r == self.current_tgid,
    {
        self.current_tgid
    }

    /// Makes the group of task `target_tid` (of session `target_sid`) the
    /// foreground group. Once the terminal is bound to a session, only the
    /// leader of that session (`caller`: its session and its own id, or why
    /// it could not be found) may do so, and only for a group of that
    /// session; the first call binds the session. Refusals are
    /// `NotPermitted`.
    pub fn set_fg_tgid(
        &mut self,
        target_tid: u64,
        target_sid: u64,
        caller: Result<(u64, u64), SysError>,
    ) -> (r: Result<(), SysError>)
        ensures
            final(self).current_read_buf == old(self).current_read_buf,
            final(self).line_discipline == old(self).line_discipline,
            (old(self).current_sid matches Some(sid) && caller matches Ok((csid, ctid)) && (csid != sid
                || csid != ctid)) ==> (r matches Err(e) && e.kind == SysErrorKind::NotPermitted),
            old(self).current_sid is Some && caller is Err ==> r is Err,
            r is Ok ==> final(self).current_tgid == target_tid && (old(self).current_tgid == 0
                ==> final(self).current_sid == Some(target_sid)) && (old(self).current_tgid != 0
                ==> final(self).current_sid == old(self).current_sid),
            r is Ok <==> (match old(self).current_sid {
                None => true,
                Some(sid) => (caller matches Ok((csid, ctid)) && csid == sid && csid == ctid) && (
                old(self).current_tgid != 0 ==> sid == target_sid),
            }),
            r is Err ==> final(self).current_tgid == old(self).current_tgid && final(self).current_sid
                == old(self).current_sid,
    {
        if let Some(sid) = self.current_sid {
            match caller {
                Ok((csid, ctid)) => {
                    if csid != sid || csid != ctid {
                        return Err(SysError::from(SysErrorKind::NotPermitted));
                    }
                },
                Err(e) => {
                    return Err(e);
                },
            }
        }
        if self.current_tgid != 0 {
            if let Some(sid) = self.current_sid {
                if sid != target_sid {
                    return Err(SysError::from(SysErrorKind::NotPermitted));
                }
            }
        } else {
            self.current_sid = Some(target_sid);
        }
        self.current_tgid = target_tid;
        Ok(())
    }

    /// Takes `buf` as terminal input: control keys give the signals to
    /// send when a foreground group exists (`fg_exists`), every other byte
    /// goes to the line discipline. Returns the signals in order and
    /// whether a line was completed.
    pub fn receive_input(&mut self, buf: &[u8], fg_exists: bool) -> (r: (Vec<TtyControl>, bool))
        requires
            old(self).wf(),
        ensures
            final(self).wf(),
            final(self).current_tgid == old(self).current_tgid,
            final(self).current_sid == old(self).current_sid,
            final(self).current_read_buf == old(self).current_read_buf,
            r.0@ == input_signals(buf@, fg_exists),
            final(self).line_discipline.state() == input_all(
                old(self).line_discipline.state(),
                buf@,
                fg_exists,
            ),
            r.1 == (final(self).line_discipline.state().lines.len() != old(
                self,
            ).line_discipline.state().lines.len()),
    {
        let mut signals: Vec<TtyControl> = Vec::new();
        let mut new_line = false;
        let mut i: usize = 0;
        while i < buf.len()
            invariant
                self.wf(),
                i <= buf@.len(),
                self.current_tgid == old(self).current_tgid,
                self.current_sid == old(self).current_sid,
                self.current_read_buf == old(self).current_read_buf,
                signals@ == input_signals(buf@.subrange(0, i as int), fg_exists),
                self.line_discipline.state() == input_all(
                    old(self).line_discipline.state(),
                    buf@.subrange(0, i as int),
                    fg_exists,
                ),
                self.line_discipline.state().lines.len() >= old(self).line_discipline.state().lines.len(),
                new_line == (self.line_discipline.state().lines.len() != old(
                    self,
                ).line_discipline.state().lines.len()),
            decreases buf@.len() - i,
        {
            let b = buf[i];
            proof {
                assert(buf@.subrange(0, i + 1).drop_last() =~= buf@.subrange(0, i as int));
                assert(buf@.subrange(0, i + 1).last() == b);
            }
            let sig = if fg_exists {
                control_signal(b)
            } else {
                None
            };
            match sig {
                Some(c) => {
                    signals.push(c);
                },
                None => {
                    let ghost before = self.line_discipline.state();
                    if self.line_discipline.input_byte(b) {
                        new_line = true;
                    }
                    proof {
                        crate::kernel::discipline::lemma_lines_grow(before, b);
                    }
                },
            }
            i += 1;
        }
        proof {
            assert(buf@.subrange(0, buf@.len() as int) =~= buf@);
        }
        (signals, new_line)
    }

    /// One attempt to read the terminal into `buf` for a reader that is
    /// (`is_fg`) or is not in the foreground group: the unread rest of a
    /// line first, else the oldest completed line (a lone NUL byte marks
    /// the end of input), else nothing yet.
    pub fn dev_read(&mut self, is_fg: bool, buf: &mut [u8]) -> (r: TtyRead)
        requires
            old(self).wf(),
        ensures
            final(self).wf(),
            final(self).current_tgid == old(self).current_tgid,
            final(self).current_sid == old(self).current_sid,
            final(buf)@.len() == old(buf)@.len(),
            !is_fg ==> r == TtyRead::NotForeground && *final(self) == *old(self) && final(buf)@ == old(buf)@,
            is_fg ==> ({
                let s = old(self).line_discipline.state();
                let pending = old(self).current_read_buf@;
                let takes_line = pending.len() == 0 && s.lines.len() > 0;
                let line = s.lines[0];
                let avail = if takes_line {
                    line
                } else {
                    pending
                };
                let n = if avail.len() < old(buf)@.len() {
                    avail.len() as int
                } else {
                    old(buf)@.len() as int
                };
                &&& takes_line ==> final(self).line_discipline.state() == (LineState {
                    lines: s.lines.drop_first(),
                    ..s
                })
                &&& !takes_line ==> final(self).line_discipline.state() == s
                &&& takes_line && line == seq![0u8] ==> r == TtyRead::Eof && final(buf)@ == old(buf)@
                    && final(self).current_read_buf@.len() == 0
                &&& !(takes_line && line == seq![0u8]) && avail.len() == 0 ==> r == TtyRead::Wait
                    && final(buf)@ == old(buf)@ && final(self).current_read_buf@.len() == 0
                &&& !(takes_line && line == seq![0u8]) && avail.len() > 0 ==> r == TtyRead::Read(n as u64)
                    && final(buf)@.subrange(0, n) == avail.subrange(0, n) && final(buf)@.subrange(
                    n,
                    old(buf)@.len() as int,
                ) == old(buf)@.subrange(n, old(buf)@.len() as int)
                    && final(self).current_read_buf@ == avail.subrange(n, avail.len() as int)
            }),
    {
        if !is_fg {
            return TtyRead::NotForeground;
        }
        if self.current_read_buf.len() == 0 {
            if let Some(line) = self.line_discipline.completed_line() {
                if line.len() == 1 && line[0] == 0 {
                    proof {
                        assert(line@ =~= seq![0u8]);
                    }
                    return TtyRead::Eof;
                }
                let ghost ld = self.line_discipline;
                let mut j: usize = 0;
                while j < line.len()
                    invariant
                        self.line_discipline == ld,
                        self.current_tgid == old(self).current_tgid,
                        self.current_sid == old(self).current_sid,
                        j <= line@.len(),
                        self.current_read_buf@ == line@.subrange(0, j as int),
                    decreases line@.len() - j,
                {
                    self.current_read_buf.push(line[j]);
                    proof {
                        assert(self.current_read_buf@ =~= line@.subrange(0, j + 1));
                    }
                    j += 1;
                }
                proof {
                    assert(line@.subrange(0, line@.len() as int) =~= line@);
                    if line@ == seq![0u8] {
                        assert(line@.len() == 1 && line@[0] == 0);
                    }
                }
            }
        }
        let blen = self.current_read_buf.len();
        if blen == 0 {
            return TtyRead::Wait;
        }
        let ghost avail = self.current_read_buf@;
        let ghost ld2 = self.line_discipline;
        let n = if blen < buf.len() {
            blen
        } else {
            buf.len()
        };
        let mut k: usize = 0;
        while k < n
            invariant
                self.line_discipline == ld2,
                self.current_tgid == old(self).current_tgid,
                self.current_sid == old(self).current_sid,
                n <= self.current_read_buf@.len(),
                n <= buf@.len(),
                buf@.len() == old(buf)@.len(),
                self.current_read_buf@ == avail,
                k <= n,
                forall|p: int| 0 <= p < k ==> buf@[p] == avail[p],
                forall|p: int| n <= p < buf@.len() ==> buf@[p] == old(buf)@[p],
            decreases n - k,
        {
            buf[k] = self.current_read_buf[k];
            k += 1;
        }
        let mut rest: Vec<u8> = Vec::new();
        let mut m: usize = n;
        while m < blen
            invariant
                self.line_discipline == ld2,
                self.current_tgid == old(self).current_tgid,
                self.current_sid == old(self).current_sid,
                n <= m <= blen,
                blen == self.current_read_buf@.len(),
                self.current_read_buf@ == avail,
                rest@ == avail.subrange(n as int, m as int),
            decreases blen - m,
        {
            rest.push(self.current_read_buf[m]);
            proof {
                assert(rest@ =~= avail.subrange(n as int, m + 1));
            }
            m += 1;
        }
        self.current_read_buf = rest;
        proof {
            assert(buf@.subrange(0, n as int) =~= avail.subrange(0, n as int));
            assert(buf@.subrange(n as int, old(buf)@.len() as int) =~= old(buf)@.subrange(
                n as int,
                old(buf)@.len() as int,
            ));
        }
        TtyRead::Read(n as u64)
    }
}

} // verus!
