//! Guarded update of binary driver packages: the package listing parser, the
//! index freshness rule, the hold guard, the upgrade cycle and the module
//! reload decision, as verified state machines that a thin runner drives.

mod freshness;
mod guard;
mod inventory;
mod listing;
mod outcome;
mod reload;
mod text;
mod upgrade;

pub use freshness::{is_stale, INDEX_MAX_AGE_SECS, NANOS_PER_SEC};
pub use guard::{extended, lemma_extended_step, lemma_release_is_union, names_of, UnholdGuard};
pub use inventory::{
    ascending, changed, compare_names, lemma_enumeration_determined, lemma_names_ascending,
    lemma_names_sorted, sorted_names, Inventory,
};
pub use listing::{listing, parse_listing, parse_listing_bytes};
pub use outcome::{Event, ExitOutcome, UpgradeError};
pub use reload::{recovery, recovery_for, reload_command, reload_next, Reload, ReloadCommand};
pub use text::{chars_of, is_separator, is_white_space, line_spans, lines, word_spans, words};
pub use upgrade::{
    accepts, answered, lemma_change_starts_reload, command_of, grown, issued, lemma_cycle_progresses, lemma_hold_restored,
    lemma_mark_only, lemma_mark_only_run, lemma_run_ascends, lemma_run_restores_hold,
    mark_only_command, mark_only_stage, next, owed, rank, stages, start, Command, CommandView,
    CycleView, EventView, Stage, UpgradeCycle,
};
