//! The decisions of a timed download: how much time is left, and what each
//! outcome of reading the next piece of the body does to the byte count.
use vstd::prelude::*;

verus! {

/// What reading the next piece of the response body gave.
#[derive(Clone, Copy, Debug, PartialEq, Eq, Structural)]
pub enum ReadEvent {
    /// A piece of this many bytes.
    Chunk(usize),
    /// The body is complete.
    End,
    /// The time ran out while waiting.
    TimedOut,
    /// The transfer failed.
    Failed,
}

/// What to do after a read.
#[derive(Clone, Copy, Debug, PartialEq, Eq, Structural)]
pub enum ReadStep {
    /// Read on; this many bytes have arrived so far.
    Continue(usize),
    /// Stop measuring; this many bytes arrived.
    Finish(usize),
    /// The measurement failed.
    Abort,
}

/// The time left of a budget of `limit_nanos` after `elapsed_nanos`, or
/// `None` when none is left and reading stops.
pub fn read_budget(limit_nanos: u128, elapsed_nanos: u128) -> (r: Option<u128>)
    ensures
        elapsed_nanos >= limit_nanos ==> r is None,
        elapsed_nanos < limit_nanos ==> r == Some((limit_nanos - elapsed_nanos) as u128),
{
    if elapsed_nanos >= limit_nanos {
        None
    } else {
        Some(limit_nanos - elapsed_nanos)
    }
}

/// The step after a read, with `bytes` received before it: a piece adds
/// its length and reading goes on; the end of the body or a timeout stops
/// with the count so far; a failure aborts.
pub fn read_step(bytes: usize, event: ReadEvent) -> (s: ReadStep)
    requires
        event matches ReadEvent::Chunk(n) ==> bytes + n <= usize::MAX,
    ensures
        match event {
            ReadEvent::Chunk(n) => s == ReadStep::Continue((bytes + n) as usize),
            ReadEvent::End => s == ReadStep::Finish(bytes),
            ReadEvent::TimedOut => s == ReadStep::Finish(bytes),
            ReadEvent::Failed => s == ReadStep::Abort,
        },
{
    match event {
        ReadEvent::Chunk(n) => ReadStep::Continue(bytes + n),
        ReadEvent::End => ReadStep::Finish(bytes),
        ReadEvent::TimedOut => ReadStep::Finish(bytes),
        ReadEvent::Failed => ReadStep::Abort,
    }
}

} // verus!
