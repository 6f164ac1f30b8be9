//! The decisions of a one-way byte pipe between two connections: read a
//! chunk, write it out whole, and stop at the end of input or on any error.
use vstd::prelude::*;

verus! {

/// The size of the chunks a pipe reads.
pub const PIPE_BUFFER: usize = 1024;

/// What the last read or write did.
#[derive(Debug, Clone, Copy, PartialEq, Eq, Structural)]
pub enum PipeEvent {
    /// The read failed.
    ReadFailed,
    /// The read gave this many bytes; 0 means the input ended.
    Read(usize),
    /// Writing the chunk failed.
    WriteFailed,
    /// The chunk was written in full.
    Written,
}

/// Why a pipe stopped.
#[derive(Debug, Clone, Copy, PartialEq, Eq, Structural)]
pub enum PipeStop {
    ReadFailed,
    Closed,
    WriteFailed,
}

/// What a pipe does next.
#[derive(Debug, Clone, Copy, PartialEq, Eq, Structural)]
pub enum PipeAction {
    /// Read the next chunk.
    Read,
    /// Write the first this-many bytes of the buffer to the other side.
    Write(usize),
    /// Stop piping.
    Stop(PipeStop),
}

/// The next step of a pipe, given what the last one did. A pipe starts by
/// reading.
pub fn pipe_step(event: PipeEvent) -> (res: PipeAction)
    ensures
        res == match event {
            PipeEvent::ReadFailed => PipeAction::Stop(PipeStop::ReadFailed),
            PipeEvent::Read(n) => if n == 0 {
                PipeAction::Stop(PipeStop::Closed)
            } else {
                PipeAction::Write(n)
            },
            PipeEvent::WriteFailed => PipeAction::Stop(PipeStop::WriteFailed),
            PipeEvent::Written => PipeAction::Read,
        },
{
    match event {
        PipeEvent::ReadFailed => PipeAction::Stop(PipeStop::ReadFailed),
        PipeEvent::Read(n) => if n == 0 {
            PipeAction::Stop(PipeStop::Closed)
        } else {
            PipeAction::Write(n)
        },
        PipeEvent::WriteFailed => PipeAction::Stop(PipeStop::WriteFailed),
        PipeEvent::Written => PipeAction::Read,
    }
}

} // verus!
