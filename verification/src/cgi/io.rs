//! What becomes of reading from and writing to a script's pipes.
//!
//! Pipes never block: they are written and read until they can take or give no
//! more. The caller makes the calls; the functions here say which, and keep
//! count.

use vstd::prelude::*;

use crate::cgi::{CgiProcess, ProcessView};
use crate::http::response::writer::EAGAIN;
use crate::text;

verus! {

// ---------------------------------------------------------------------------
// Input
// ---------------------------------------------------------------------------

/// What came of giving a script its input.
#[derive(Debug, Clone, Copy, PartialEq, Eq, Structural)]
pub enum StdinOutcome {
    /// Some was taken, and more remains.
    Wrote,
    /// All was taken, and the pipe is closed.
    Finished,
    /// None could be taken now.
    WouldBlock,
    /// The script takes no more; the pipe is closed.
    Broken,
}

/// What to do next about a script's input.
#[derive(Debug, Clone, Copy, PartialEq, Eq, Structural)]
pub enum StdinStep {
    /// Write what remains of the body to this pipe, and go on as
    /// [`stdin_written`] says.
    Write(i32),
    /// Stop here. Where a pipe is given, close it.
    Stop { outcome: StdinOutcome, close: Option<i32> },
}

/// What to do next about a script's input: write as long as there is something
/// to write and a pipe to write it to, and close the pipe once all is written.
pub fn pump_stdin(process: &mut CgiProcess) -> (r: StdinStep)
    requires
        old(process).wf(),
    ensures
        final(process).wf(),
        match old(process).stdin_fd {
            None => r == (StdinStep::Stop { outcome: StdinOutcome::Finished, close: None })
                && final(process)@ == old(process)@,
            Some(fd) => if old(process).body_cursor >= old(process).body@.len() {
                &&& r == (StdinStep::Stop { outcome: StdinOutcome::Finished, close: Some(fd) })
                &&& final(process)@ == (ProcessView { stdin_fd: None, ..old(process)@ })
            } else {
                &&& r == StdinStep::Write(fd)
                &&& final(process)@ == old(process)@
            },
        },
{
    match process.stdin_fd {
        None => StdinStep::Stop { outcome: StdinOutcome::Finished, close: None },
        Some(fd) => {
            if process.body_cursor >= process.body.len() {
                let close = process.close_stdin();
                StdinStep::Stop { outcome: StdinOutcome::Finished, close }
            } else {
                StdinStep::Write(fd)
            }
        },
    }
}

/// What to do after a write to a script's input, by what `write` returned and
/// by `errno`. `wrote_any` says whether an earlier write since the pipe became
/// ready took something.
pub fn stdin_written(process: &mut CgiProcess, n: isize, errno: i32, wrote_any: bool) -> (r:
    StdinStep)
    requires
        old(process).wf(),
        old(process).stdin_fd is Some,
        n <= old(process).body.len() - old(process).body_cursor,
    ensures
        final(process).wf(),
        if n > 0 {
            let cursor = (old(process).body_cursor + n) as usize;
            if cursor >= old(process).body@.len() {
                &&& r == (StdinStep::Stop {
                    outcome: StdinOutcome::Finished,
                    close: old(process).stdin_fd,
                })
                &&& final(process)@ == (ProcessView {
                    stdin_fd: None,
                    body_cursor: cursor,
                    ..old(process)@
                })
            } else {
                &&& r == StdinStep::Write(old(process).stdin_fd->0)
                &&& final(process)@ == (ProcessView { body_cursor: cursor, ..old(process)@ })
            }
        } else if errno == EAGAIN {
            &&& r == (StdinStep::Stop {
                outcome: if wrote_any {
                    StdinOutcome::Wrote
                } else {
                    StdinOutcome::WouldBlock
                },
                close: None,
            })
            &&& final(process)@ == old(process)@
        } else {
            &&& r == (StdinStep::Stop {
                outcome: StdinOutcome::Broken,
                close: old(process).stdin_fd,
            })
            &&& final(process)@ == (ProcessView { stdin_fd: None, ..old(process)@ })
        },
{
    if n > 0 {
        process.body_cursor = process.body_cursor + n as usize;
        pump_stdin(process)
    } else if errno == EAGAIN {
        StdinStep::Stop {
            outcome: if wrote_any {
                StdinOutcome::Wrote
            } else {
                StdinOutcome::WouldBlock
            },
            close: None,
        }
    } else {
        let close = process.close_stdin();
        StdinStep::Stop { outcome: StdinOutcome::Broken, close }
    }
}

// ---------------------------------------------------------------------------
// Output
// ---------------------------------------------------------------------------

/// What came of reading a script's output.
#[derive(Debug, Clone, Copy, PartialEq, Eq, Structural)]
pub enum StdoutOutcome {
    /// There is no more now, and there may be later.
    Pending,
    /// The script has ended its output.
    Eof,
    /// The output cannot be read.
    Error,
}

/// Takes what was read from a script's output, by what `read` returned, the
/// bytes it gave, and `errno`. Reading goes on while there is no outcome.
pub fn pump_stdout(process: &mut CgiProcess, n: isize, data: &[u8], errno: i32) -> (r: Option<
    StdoutOutcome,
>)
    requires
        n <= data@.len(),
    ensures
        r == if n > 0 {
            None::<StdoutOutcome>
        } else if n == 0 {
            Some(StdoutOutcome::Eof)
        } else if errno == EAGAIN {
            Some(StdoutOutcome::Pending)
        } else {
            Some(StdoutOutcome::Error)
        },
        final(process)@ == if n > 0 {
            ProcessView { out_buf: old(process)@.out_buf + data@.take(n as int), ..old(process)@ }
        } else {
            old(process)@
        },
{
    if n > 0 {
        assert(data@.take(n as int) =~= data@.subrange(0, n as int));
        text::extend(&mut process.out_buf, &data[0..n as usize]);
        None
    } else if n == 0 {
        Some(StdoutOutcome::Eof)
    } else if errno == EAGAIN {
        Some(StdoutOutcome::Pending)
    } else {
        Some(StdoutOutcome::Error)
    }
}

} // verus!
