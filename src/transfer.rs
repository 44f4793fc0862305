use vstd::prelude::*;
use crate::coordinator::{FailReason, ItemState};

verus! {

/// Bytes received so far after a chunk of `chunk` more, held at `u64::MAX`.
pub fn add_chunk(received: u64, chunk: u64) -> (r: u64)
    ensures
        r == if received + chunk > u64::MAX { u64::MAX as int } else { received + chunk },
{
    if chunk > u64::MAX - received {
        u64::MAX
    } else {
        received + chunk
    }
}

/// Whether the transfer is complete: the declared size is reached.
pub fn reached_size(received: u64, declared: u64) -> (r: bool)
    ensures
        r == (received >= declared),
{
    received >= declared
}

/// How a transfer ends when the peer closes the connection.
pub fn outcome_on_close(received: u64, declared: u64) -> (r: ItemState)
    ensures
        r == if received == declared {
            ItemState::Completed
        } else {
            ItemState::Failed(FailReason::SizeMismatch)
        },
{
    if received == declared {
        ItemState::Completed
    } else {
        ItemState::Failed(FailReason::SizeMismatch)
    }
}

/// The progress event value that closes an item's stream.
pub const CLOSED: i64 = 0;

/// The progress event for `received` bytes: that count, held at `i64::MAX`.
pub fn progress_value(received: u64) -> (r: i64)
    ensures
        r == if received > i64::MAX { i64::MAX as int } else { received as int },
{
    if received > i64::MAX as u64 {
        i64::MAX
    } else {
        received as i64
    }
}

/// What a progress display does with one progress event.
#[derive(Debug, Clone, Copy, PartialEq, Eq, Structural)]
pub enum BarUpdate {
    Advance(u64),
    Finish,
}

/// A positive event sets the bar to that many bytes; any other closes it.
pub fn bar_update(progress: i64) -> (r: BarUpdate)
    ensures
        progress > 0 ==> r == BarUpdate::Advance(progress as u64),
        progress <= 0 ==> r == BarUpdate::Finish,
{
    if progress > 0 {
        BarUpdate::Advance(progress as u64)
    } else {
        BarUpdate::Finish
    }
}

/// The lifecycle markers of the status stream.
#[derive(Debug, Clone, Copy, PartialEq, Eq, Structural)]
pub enum StatusMarker {
    ItemFinished,
    AllDone,
    Waiting,
}

/// What the status display does with one marker: count a finished item,
/// close, or only show it.
#[derive(Debug, Clone, Copy, PartialEq, Eq, Structural)]
pub enum StatusUpdate {
    Increment,
    Finish,
    Show,
}

pub fn status_update(m: StatusMarker) -> (r: StatusUpdate)
    ensures
        m == StatusMarker::ItemFinished ==> r == StatusUpdate::Increment,
        m == StatusMarker::AllDone ==> r == StatusUpdate::Finish,
        m == StatusMarker::Waiting ==> r == StatusUpdate::Show,
{
    match m {
        StatusMarker::ItemFinished => StatusUpdate::Increment,
        StatusMarker::AllDone => StatusUpdate::Finish,
        StatusMarker::Waiting => StatusUpdate::Show,
    }
}

} // verus!
