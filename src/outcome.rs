use vstd::prelude::*;

verus! {

/// How an external command that ran to completion ended.
#[derive(Clone, Copy, Debug, PartialEq, Eq, Structural)]
pub enum ExitOutcome {
    Success,
    /// The command reported failure; `code` is absent when a signal ended it.
    Failure { code: Option<i32> },
}

/// Why an update cycle or a reload did not complete.
#[derive(Clone, Copy, Debug, PartialEq, Eq, Structural)]
pub enum UpgradeError {
    /// The system could not start an external command at all.
    Invocation,
    /// An external command ran and reported failure.
    NonZeroExit { code: Option<i32> },
    /// The package listing was not UTF-8 text.
    QueryParse,
    /// Releasing the hold on the packages failed while taking the guard.
    Pin { code: Option<i32> },
}

/// What an external command's run came to, as the next step sees it.
#[derive(Debug)]
pub enum Event {
    /// The command ran to completion.
    Exited(ExitOutcome),
    /// The listing command ran to completion and printed `output`.
    Listed(ExitOutcome, Vec<u8>),
    /// The index marker's modification time (`None` when it cannot be read)
    /// and the current time, both in nanoseconds since the Unix epoch.
    IndexAge { modified: Option<u128>, now: u128 },
    /// The system could not start the command.
    NotStarted,
}

} // verus!
