use vstd::prelude::*;
use crate::outcome::{Event, ExitOutcome, UpgradeError};

verus! {

/// Where a kernel module reload stands: a live reload first, a restart of
/// the system when the module cannot be unloaded.
#[derive(Clone, Copy, Debug)]
pub enum Reload {
    Unload,
    Load,
    Reboot,
    Done { result: Result<(), UpgradeError> },
}

/// The next thing that a reload asks its runner to do.
#[derive(Clone, Copy, Debug)]
pub enum ReloadCommand {
    /// Remove the kernel module.
    UnloadModule,
    /// Insert the kernel module afresh.
    LoadModule,
    /// Restart the system.
    Reboot,
    /// The reload is over, successfully or not.
    Finish(Result<(), UpgradeError>),
}

/// The error that a finished command reports, if any.
pub open spec fn exit_failure(e: Event) -> Option<UpgradeError> {
    match e {
        Event::Exited(ExitOutcome::Failure { code }) => Some(UpgradeError::NonZeroExit { code }),
        Event::NotStarted => Some(UpgradeError::Invocation),
        _ => None,
    }
}

/// The stage that follows `s` once `e` answers its command. A module that
/// the unload command fails to remove is never loaded: the system is
/// restarted instead. A command that cannot be started at all ends the
/// reload with that error.
pub open spec fn reload_next(s: Reload, e: Event) -> Reload {
    match s {
        Reload::Unload => match e {
            Event::Exited(ExitOutcome::Failure { .. }) => Reload::Reboot,
            Event::NotStarted => Reload::Done { result: Err(UpgradeError::Invocation) },
            _ => Reload::Load,
        },
        Reload::Load | Reload::Reboot => match exit_failure(e) {
            Some(err) => Reload::Done { result: Err(err) },
            None => Reload::Done { result: Ok(()) },
        },
        Reload::Done { .. } => s,
    }
}

pub open spec fn reload_command(s: Reload) -> ReloadCommand {
    match s {
        Reload::Unload => ReloadCommand::UnloadModule,
        Reload::Load => ReloadCommand::LoadModule,
        Reload::Reboot => ReloadCommand::Reboot,
        Reload::Done { result } => ReloadCommand::Finish(result),
    }
}

impl Reload {
    /// A reload that has not run any command yet.
    pub fn new() -> (r: Reload)
        ensures
            r == Reload::Unload,
    {
        Reload::Unload
    }

    /// The command to run next.
    pub fn command(&self) -> (r: ReloadCommand)
        ensures
            r == reload_command(*self),
    {
        match self {
            Reload::Unload => ReloadCommand::UnloadModule,
            Reload::Load => ReloadCommand::LoadModule,
            Reload::Reboot => ReloadCommand::Reboot,
            Reload::Done { result } => ReloadCommand::Finish(*result),
        }
    }

    /// Moves on once `event` has answered the current command.
    pub fn step(self, event: &Event) -> (r: Reload)
        requires
            event is Exited || event is NotStarted,
        ensures
            r == reload_next(self, *event),
    {
        let failure = match event {
            Event::Exited(ExitOutcome::Failure { code }) => Some(
                UpgradeError::NonZeroExit { code: *code },
            ),
            Event::NotStarted => Some(UpgradeError::Invocation),
            _ => None,
        };
        match self {
            Reload::Unload => match failure {
                None => Reload::Load,
                Some(UpgradeError::Invocation) => Reload::Done { result: Err(UpgradeError::Invocation) },
                Some(_) => Reload::Reboot,
            },
            Reload::Load | Reload::Reboot => match failure {
                Some(err) => Reload::Done { result: Err(err) },
                None => Reload::Done { result: Ok(()) },
            },
            Reload::Done { result } => Reload::Done { result },
        }
    }
}

/// The recovery that follows an update cycle's result: a reload, from its
/// first stage, exactly when the cycle reports that one is needed.
pub open spec fn recovery(result: Result<bool, UpgradeError>) -> Option<Reload> {
    if result == Ok::<bool, UpgradeError>(true) {
        Some(Reload::Unload)
    } else {
        None
    }
}

/// Decides on recovery once an update cycle has finished with `result`.
pub fn recovery_for(result: &Result<bool, UpgradeError>) -> (r: Option<Reload>)
    ensures
        r == recovery(*result),
{
    match result {
        Ok(true) => Some(Reload::new()),
        _ => None,
    }
}

} // verus!
