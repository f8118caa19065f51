//! Starting and stopping a server that runs beside the client, as far as it is
//! a matter of decisions: what to make of what the server writes while it
//! starts, and what to do when it is asked to stop.

use vstd::prelude::*;

verus! {

/// How many seconds a server may take to start, and to stop.
pub const SERVER_TIMEOUT_SECS: u64 = 30;

/// Why the server could not be handled.
#[derive(Debug, Clone, Copy, PartialEq, Eq, Structural)]
pub enum SubprocessError {
    /// The process could not be started or its output not be read.
    SpawnFailed,
    /// The process ended while it started, with this exit code if it gave one.
    ProcessCrashed(Option<i32>),
    /// The process did not say that it is done within this many seconds.
    StartupTimeout(u64),
    /// The command to stop could not be sent.
    StopCommandFailed,
    /// There is no process.
    NotRunning,
}

/// `needle` occurs in `hay`.
pub open spec fn occurs_in(needle: Seq<u8>, hay: Seq<u8>) -> bool {
    exists|at: int| 0 <= at && at + needle.len() <= hay.len() && #[trigger] hay.subrange(
        at,
        at + needle.len(),
    ) == needle
}

/// The word by which the server says that it is done.
pub open spec fn done_word() -> Seq<u8> {
    seq![68u8, 111u8, 110u8, 101u8]
}

/// The end of the time that the server gives with it, as in "(1.5s)!".
pub open spec fn done_mark() -> Seq<u8> {
    seq![115u8, 41u8, 33u8]
}

/// The line says that the server is done: it holds "Done" and "s)!".
pub open spec fn says_done(line: Seq<u8>) -> bool {
    occurs_in(done_word(), line) && occurs_in(done_mark(), line)
}

/// Whether `needle` occurs in `hay`.
pub fn contains_bytes(hay: &[u8], needle: &[u8]) -> (found: bool)
    ensures
        found == occurs_in(needle@, hay@),
{
    let n = needle.len();
    let h = hay.len();
    if n > h {
        return false;
    }
    let mut at: usize = 0;
    while at <= h - n
        invariant
            n == needle@.len(),
            h == hay@.len(),
            n <= h,
            at <= h - n + 1,
            forall|a: int| 0 <= a < at ==> #[trigger] hay@.subrange(a, a + n) != needle@,
        decreases h - n + 1 - at,
    {
        let mut k: usize = 0;
        while k < n && hay[at + k] == needle[k]
            invariant
                n == needle@.len(),
                h == hay@.len(),
                at + n <= h,
                k <= n,
                forall|j: int| 0 <= j < k ==> hay@[at + j] == needle@[j],
            decreases n - k,
        {
            k += 1;
        }
        if k == n {
            proof {
                assert(hay@.subrange(at as int, at + n) =~= needle@);
            }
            return true;
        }
        proof {
            assert(hay@.subrange(at as int, at + n)[k as int] == hay@[at + k]);
        }
        at += 1;
    }
    false
}

/// Whether the line says that the server is done.
pub fn is_done_line(line: &[u8]) -> (done: bool)
    ensures
        done == says_done(line@),
{
    let word: [u8; 4] = [68, 111, 110, 101];
    let mark: [u8; 3] = [115, 41, 33];
    assert(word@ =~= done_word());
    assert(mark@ =~= done_mark());
    contains_bytes(line, word.as_slice()) && contains_bytes(line, mark.as_slice())
}

/// What happens while the server starts.
#[derive(Debug, Clone, PartialEq, Eq)]
pub enum StartupEvent {
    /// The server wrote a line.
    Line(Vec<u8>),
    /// The output of the server ended; the process gave this exit code, if any.
    Closed(Option<i32>),
    /// The output of the server could not be read.
    ReadFailed,
    /// The time to start is over.
    TimedOut,
}

/// What to do next while the server starts.
#[derive(Debug, Clone, Copy, PartialEq, Eq, Structural)]
pub enum StartupStep {
    /// Read the next line.
    KeepReading,
    /// The server runs.
    Ready,
    /// Kill the process and give up with this error.
    GiveUp(SubprocessError),
}

/// What to make of `event`: a line that says that the server is done makes
/// it ready, any other line is passed over; the end of the output, a failure
/// to read and the end of the time each end the start with their error.
pub fn startup_step(event: &StartupEvent) -> (step: StartupStep)
    ensures
        step == match *event {
            StartupEvent::Line(line) => if says_done(line@) {
                StartupStep::Ready
            } else {
                StartupStep::KeepReading
            },
            StartupEvent::Closed(code) => StartupStep::GiveUp(SubprocessError::ProcessCrashed(code)),
            StartupEvent::ReadFailed => StartupStep::GiveUp(SubprocessError::SpawnFailed),
            StartupEvent::TimedOut => StartupStep::GiveUp(
                SubprocessError::StartupTimeout(SERVER_TIMEOUT_SECS),
            ),
        },
{
    match event {
        StartupEvent::Line(line) => {
            if is_done_line(line.as_slice()) {
                StartupStep::Ready
            } else {
                StartupStep::KeepReading
            }
        },
        StartupEvent::Closed(code) => StartupStep::GiveUp(SubprocessError::ProcessCrashed(*code)),
        StartupEvent::ReadFailed => StartupStep::GiveUp(SubprocessError::SpawnFailed),
        StartupEvent::TimedOut => StartupStep::GiveUp(
            SubprocessError::StartupTimeout(SERVER_TIMEOUT_SECS),
        ),
    }
}

/// What happens while the server is asked to stop.
#[derive(Debug, Clone, Copy, PartialEq, Eq, Structural)]
pub enum StopEvent {
    /// There is no process to stop.
    NoProcess,
    /// The command to stop could not be sent.
    CommandFailed,
    /// The process has ended.
    Exited,
    /// Waiting for the process failed.
    WaitFailed,
    /// The time to stop is over.
    TimedOut,
}

/// What to do next while the server stops.
#[derive(Debug, Clone, Copy, PartialEq, Eq, Structural)]
pub enum StopStep {
    /// The server has stopped.
    Stopped,
    /// Kill the process; the server has stopped then.
    Kill,
    /// Give up with this error.
    GiveUp(SubprocessError),
}

/// What to make of `event`: without a process and where the command or the
/// wait failed, the stop ends with the error; a process that has ended has
/// stopped; one that takes too long is killed.
pub fn stop_step(event: StopEvent) -> (step: StopStep)
    ensures
        step == match event {
            StopEvent::NoProcess => StopStep::GiveUp(SubprocessError::NotRunning),
            StopEvent::CommandFailed => StopStep::GiveUp(SubprocessError::StopCommandFailed),
            StopEvent::Exited => StopStep::Stopped,
            StopEvent::WaitFailed => StopStep::GiveUp(SubprocessError::SpawnFailed),
            StopEvent::TimedOut => StopStep::Kill,
        },
{
    match event {
        StopEvent::NoProcess => StopStep::GiveUp(SubprocessError::NotRunning),
        StopEvent::CommandFailed => StopStep::GiveUp(SubprocessError::StopCommandFailed),
        StopEvent::Exited => StopStep::Stopped,
        StopEvent::WaitFailed => StopStep::GiveUp(SubprocessError::SpawnFailed),
        StopEvent::TimedOut => StopStep::Kill,
    }
}

} // verus!
