//! Reading the log of a build while it is written.
use vstd::prelude::*;

verus! {

/// The log of a build cannot be found.
#[derive(Debug, Clone, Copy)]
pub struct NotFound;

/// Where a read stands: still waiting, or done with the outcome.
pub enum Progress<E> {
    Pending,
    Ready(Result<(), E>),
}

/// Where a read of a log stands, given where the read of its file stands and whether the
/// writer has finished: a failure is passed on, and the end of the file is the end of
/// the log only once the writer has finished.
pub fn read_progress<E>(file: Progress<E>, writer_done: bool) -> (r: Progress<E>)
    ensures
        match file {
            Progress::Pending => r is Pending,
            Progress::Ready(Err(e)) => r == Progress::<E>::Ready(Err(e)),
            Progress::Ready(Ok(())) => if writer_done {
                r == Progress::<E>::Ready(Ok(()))
            } else {
                r is Pending
            },
        },
{
    match file {
        Progress::Pending => Progress::Pending,
        Progress::Ready(Err(e)) => Progress::Ready(Err(e)),
        Progress::Ready(Ok(())) => {
            if writer_done {
                Progress::Ready(Ok(()))
            } else {
                Progress::Pending
            }
        },
    }
}

} // verus!
