//! What becomes of work that is handed to the background.

use vstd::prelude::*;

verus! {

/// Why work was not scheduled.
#[derive(Clone, Copy, Debug, PartialEq, Eq, Structural)]
pub enum ScheduleError {
    Full,
    Stopped,
}

impl ScheduleError {
    /// The name of an error.
    pub open spec fn text(self) -> Seq<char> {
        match self {
            ScheduleError::Full => "Full"@,
            ScheduleError::Stopped => "Stopped"@,
        }
    }

    /// Gives the name of this error.
    pub fn name(&self) -> (text: &'static str)
        ensures
            text@ == self.text(),
    {
        match self {
            ScheduleError::Full => "Full",
            ScheduleError::Stopped => "Stopped",
        }
    }
}

/// What a bounded queue did with a message.
#[derive(Clone, Copy, Debug, PartialEq, Eq, Structural)]
pub enum QueueOutcome {
    Accepted,
    Full,
    Disconnected,
}

/// What the queue says of scheduled work: a queue without workers has stopped.
pub fn schedule_result(outcome: QueueOutcome) -> (result: Result<(), ScheduleError>)
    ensures
        result == match outcome {
            QueueOutcome::Accepted => Ok::<(), ScheduleError>(()),
            QueueOutcome::Full => Err(ScheduleError::Full),
            QueueOutcome::Disconnected => Err(ScheduleError::Stopped),
        },
{
    match outcome {
        QueueOutcome::Accepted => Ok(()),
        QueueOutcome::Full => Err(ScheduleError::Full),
        QueueOutcome::Disconnected => Err(ScheduleError::Stopped),
    }
}

} // verus!
