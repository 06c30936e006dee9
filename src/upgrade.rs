use vstd::prelude::*;
use vstd::utf8::{decode_utf8, valid_utf8};
use crate::freshness::{is_stale, marker_time, INDEX_MAX_AGE_SECS, NANOS_PER_SEC};
use crate::guard::{names_of, UnholdGuard};
use crate::inventory::{changed, lemma_names_sorted, sorted_names, Inventory};
use crate::listing::{listing, parse_listing_bytes};
use crate::outcome::{Event, ExitOutcome, UpgradeError};
use crate::reload::{recovery, reload_command, Reload, ReloadCommand};

verus! {

/// An event as the cycle's rules see it.
pub enum EventView {
    Exited(ExitOutcome),
    Listed(ExitOutcome, Seq<u8>),
    IndexAge(Option<u128>, u128),
    NotStarted,
}

impl View for Event {
    type V = EventView;

    open spec fn view(&self) -> EventView {
        match self {
            Event::Exited(o) => EventView::Exited(*o),
            Event::Listed(o, out) => EventView::Listed(*o, out@),
            Event::IndexAge { modified, now } => EventView::IndexAge(*modified, *now),
            Event::NotStarted => EventView::NotStarted,
        }
    }
}

/// The next thing that an update cycle asks its runner to do.
#[derive(Debug)]
pub enum Command {
    /// Read the index marker's modification time and the clock.
    CheckIndexAge,
    /// Refresh the package index.
    RefreshIndex,
    /// List the installed packages of interest.
    ListPackages,
    /// Release the hold on these packages.
    Unhold(Vec<String>),
    /// Apply all pending package upgrades.
    Upgrade,
    /// Put the hold back on these packages.
    Hold(Vec<String>),
    /// The cycle is over: whether a module reload is needed, or why it failed.
    Finish(Result<bool, UpgradeError>),
    /// Holding these packages again failed: stop at once, naming them.
    Abort(Vec<String>),
}

/// A command as the cycle's rules see it.
pub enum CommandView {
    CheckIndexAge,
    RefreshIndex,
    ListPackages,
    Unhold(Seq<Seq<char>>),
    Upgrade,
    Hold(Seq<Seq<char>>),
    Finish(Result<bool, UpgradeError>),
    Abort(Seq<Seq<char>>),
}

impl View for Command {
    type V = CommandView;

    open spec fn view(&self) -> CommandView {
        match self {
            Command::CheckIndexAge => CommandView::CheckIndexAge,
            Command::RefreshIndex => CommandView::RefreshIndex,
            Command::ListPackages => CommandView::ListPackages,
            Command::Unhold(n) => CommandView::Unhold(names_of(n@)),
            Command::Upgrade => CommandView::Upgrade,
            Command::Hold(n) => CommandView::Hold(names_of(n@)),
            Command::Finish(r) => CommandView::Finish(*r),
            Command::Abort(n) => CommandView::Abort(names_of(n@)),
        }
    }
}

/// Where an update cycle stands: the snapshot taken before the upgrade, and
/// the names whose hold is released and owed back, in the order in which the
/// hold command will name them.
pub enum Stage {
    CheckAge,
    Refresh,
    ListBefore,
    Unhold { before: Map<Seq<char>, Seq<char>> },
    Upgrade { before: Map<Seq<char>, Seq<char>>, held: Seq<Seq<char>> },
    ListAfter { before: Map<Seq<char>, Seq<char>>, held: Seq<Seq<char>> },
    Release { held: Seq<Seq<char>>, result: Result<bool, UpgradeError> },
    Done { result: Result<bool, UpgradeError> },
    Aborted { held: Seq<Seq<char>> },
}

pub struct CycleView {
    pub mark_only: bool,
    pub stage: Stage,
}

/// The stage in which a cycle starts: mark-only mode neither checks nor
/// refreshes the index.
pub open spec fn start(mark_only: bool) -> CycleView {
    CycleView { mark_only, stage: if mark_only { Stage::ListBefore } else { Stage::CheckAge } }
}

/// The command that a cycle in stage `s` asks for.
pub open spec fn command_of(s: Stage) -> CommandView {
    match s {
        Stage::CheckAge => CommandView::CheckIndexAge,
        Stage::Refresh => CommandView::RefreshIndex,
        Stage::ListBefore => CommandView::ListPackages,
        Stage::Unhold { before } => CommandView::Unhold(sorted_names(before)),
        Stage::Upgrade { .. } => CommandView::Upgrade,
        Stage::ListAfter { .. } => CommandView::ListPackages,
        Stage::Release { held, .. } => CommandView::Hold(held),
        Stage::Done { result } => CommandView::Finish(result),
        Stage::Aborted { held } => CommandView::Abort(held),
    }
}

/// Whether `e` answers the command of stage `s`.
pub open spec fn accepts(s: Stage, e: EventView) -> bool {
    match s {
        Stage::CheckAge => e is IndexAge,
        Stage::ListBefore | Stage::ListAfter { .. } => e is Listed || e is NotStarted,
        Stage::Done { .. } | Stage::Aborted { .. } => false,
        _ => e is Exited || e is NotStarted,
    }
}

/// The error that a failed command yields; `None` on success.
pub open spec fn failure(e: EventView) -> Option<UpgradeError> {
    match e {
        EventView::Exited(ExitOutcome::Failure { code }) => Some(
            UpgradeError::NonZeroExit { code },
        ),
        EventView::Listed(ExitOutcome::Failure { code }, _) => Some(
            UpgradeError::NonZeroExit { code },
        ),
        EventView::Listed(ExitOutcome::Success, out) => if valid_utf8(out) {
            None
        } else {
            Some(UpgradeError::QueryParse)
        },
        EventView::NotStarted => Some(UpgradeError::Invocation),
        _ => None,
    }
}

/// The packages that a successful listing names.
pub open spec fn listed(e: EventView) -> Map<Seq<char>, Seq<char>> {
    match e {
        EventView::Listed(_, out) => listing(decode_utf8(out)),
        _ => Map::empty(),
    }
}

/// The stage that follows `s` once `e` answers its command.
pub open spec fn next_stage(mark_only: bool, s: Stage, e: EventView) -> Stage {
    match s {
        Stage::CheckAge => match e {
            EventView::IndexAge(m, now) => if now - marker_time(m) > INDEX_MAX_AGE_SECS
                * NANOS_PER_SEC {
                Stage::Refresh
            } else {
                Stage::ListBefore
            },
            _ => s,
        },
        Stage::Refresh => match failure(e) {
            Some(err) => Stage::Done { result: Err(err) },
            None => Stage::ListBefore,
        },
        Stage::ListBefore => match failure(e) {
            Some(err) => Stage::Done { result: Err(err) },
            None => Stage::Unhold { before: listed(e) },
        },
        Stage::Unhold { before } => match e {
            EventView::Exited(ExitOutcome::Failure { code }) => Stage::Done {
                result: Err(UpgradeError::Pin { code }),
            },
            EventView::NotStarted => Stage::Done { result: Err(UpgradeError::Invocation) },
            _ => if mark_only {
                Stage::Release { held: sorted_names(before), result: Ok(false) }
            } else {
                Stage::Upgrade { before, held: sorted_names(before) }
            },
        },
        Stage::Upgrade { before, held } => match failure(e) {
            Some(err) => Stage::Release { held, result: Err(err) },
            None => Stage::ListAfter { before, held },
        },
        Stage::ListAfter { before, held } => match failure(e) {
            Some(err) => Stage::Release { held, result: Err(err) },
            None => Stage::Release {
                held: held + sorted_names(listed(e)),
                result: Ok(before != listed(e)),
            },
        },
        Stage::Release { held, result } => match failure(e) {
            Some(_) => Stage::Aborted { held },
            None => Stage::Done { result },
        },
        _ => s,
    }
}

pub open spec fn next(c: CycleView, e: EventView) -> CycleView {
    CycleView { mark_only: c.mark_only, stage: next_stage(c.mark_only, c.stage, e) }
}

enum Phase {
    CheckAge,
    Refresh,
    ListBefore,
    Unhold { before: Inventory },
    Upgrade { before: Inventory, guard: UnholdGuard },
    ListAfter { before: Inventory, guard: UnholdGuard },
    Release { guard: UnholdGuard, result: Result<bool, UpgradeError> },
    Done { result: Result<bool, UpgradeError> },
    Aborted { guard: UnholdGuard },
}

/// One update cycle: check the index age and refresh a stale index, list the
/// packages, release their hold, upgrade, list them again, and put the hold
/// back on all of them, whatever failed in between.
pub struct UpgradeCycle {
    mark_only: bool,
    phase: Phase,
}

impl View for UpgradeCycle {
    type V = CycleView;

    closed spec fn view(&self) -> CycleView {
        CycleView {
            mark_only: self.mark_only,
            stage: match self.phase {
                Phase::CheckAge => Stage::CheckAge,
                Phase::Refresh => Stage::Refresh,
                Phase::ListBefore => Stage::ListBefore,
                Phase::Unhold { before } => Stage::Unhold { before: before@ },
                Phase::Upgrade { before, guard } => Stage::Upgrade { before: before@, held: guard@ },
                Phase::ListAfter { before, guard } => Stage::ListAfter {
                    before: before@,
                    held: guard@,
                },
                Phase::Release { guard, result } => Stage::Release { held: guard@, result },
                Phase::Done { result } => Stage::Done { result },
                Phase::Aborted { guard } => Stage::Aborted { held: guard@ },
            },
        }
    }
}

impl UpgradeCycle {
    pub closed spec fn wf(&self) -> bool {
        match self.phase {
            Phase::Unhold { before } => before.wf(),
            Phase::Upgrade { before, .. } => before.wf(),
            Phase::ListAfter { before, .. } => before.wf(),
            _ => true,
        }
    }

    /// A cycle that has not run any command yet.
    pub fn new(mark_only: bool) -> (r: UpgradeCycle)
        ensures
            r.wf(),
            r@ == start(mark_only),
    {
        UpgradeCycle {
            mark_only,
            phase: if mark_only {
                Phase::ListBefore
            } else {
                Phase::CheckAge
            },
        }
    }

    /// The command to run next.
    pub fn command(&self) -> (r: Command)
        requires
            self.wf(),
        ensures
            r@ == command_of(self@.stage),
    {
        match &self.phase {
            Phase::CheckAge => Command::CheckIndexAge,
            Phase::Refresh => Command::RefreshIndex,
            Phase::ListBefore => Command::ListPackages,
            Phase::Unhold { before } => {
                let names = before.names();
                proof {
                    lemma_names_sorted(before);
                    assert(names_of(names@) == before.name_seq());
                }
                Command::Unhold(names)
            },
            Phase::Upgrade { .. } => Command::Upgrade,
            Phase::ListAfter { .. } => Command::ListPackages,
            Phase::Release { guard, .. } => Command::Hold(guard.names()),
            Phase::Done { result } => Command::Finish(*result),
            Phase::Aborted { guard } => Command::Abort(guard.names()),
        }
    }

    /// Whether `event` answers the command to run next.
    pub fn accepts(&self, event: &Event) -> (r: bool)
        ensures
            r == accepts(self@.stage, event@),
    {
        match (&self.phase, event) {
            (Phase::CheckAge, Event::IndexAge { .. }) => true,
            (Phase::CheckAge, _) => false,
            (Phase::ListBefore, Event::Listed(..)) => true,
            (Phase::ListAfter { .. }, Event::Listed(..)) => true,
            (Phase::ListBefore, Event::NotStarted) => true,
            (Phase::ListAfter { .. }, Event::NotStarted) => true,
            (Phase::ListBefore, _) => false,
            (Phase::ListAfter { .. }, _) => false,
            (Phase::Done { .. }, _) => false,
            (Phase::Aborted { .. }, _) => false,
            (_, Event::Exited(_)) => true,
            (_, Event::NotStarted) => true,
            (_, _) => false,
        }
    }

    /// Moves on once `event` has answered the current command.
    pub fn step(self, event: Event) -> (r: UpgradeCycle)
        requires
            self.wf(),
            accepts(self@.stage, event@),
        ensures
            r.wf(),
            r@ == next(self@, event@),
    {
        let mark_only = self.mark_only;
        let phase = match self.phase {
            Phase::CheckAge => match event {
                Event::IndexAge { modified, now } => if is_stale(modified, now, INDEX_MAX_AGE_SECS) {
                    Phase::Refresh
                } else {
                    Phase::ListBefore
                },
                _ => Phase::CheckAge,
            },
            Phase::Refresh => match exit_error(&event) {
                Some(e) => Phase::Done { result: Err(e) },
                None => Phase::ListBefore,
            },
            Phase::ListBefore => match read_listing(event) {
                Err(e) => Phase::Done { result: Err(e) },
                Ok(before) => Phase::Unhold { before },
            },
            Phase::Unhold { before } => match event {
                Event::Exited(ExitOutcome::Failure { code }) => Phase::Done {
                    result: Err(UpgradeError::Pin { code }),
                },
                Event::NotStarted => Phase::Done { result: Err(UpgradeError::Invocation) },
                _ => {
                    let names = before.names();
                    proof {
                        lemma_names_sorted(&before);
                        assert(names_of(names@) == before.name_seq());
                    }
                    let guard = UnholdGuard::new(names);
                    if mark_only {
                        Phase::Release { guard, result: Ok(false) }
                    } else {
                        Phase::Upgrade { before, guard }
                    }
                },
            },
            Phase::Upgrade { before, guard } => match exit_error(&event) {
                Some(e) => Phase::Release { guard, result: Err(e) },
                None => Phase::ListAfter { before, guard },
            },
            Phase::ListAfter { before, mut guard } => match read_listing(event) {
                Err(e) => Phase::Release { guard, result: Err(e) },
                Ok(after) => {
                    let names = after.names();
                    proof {
                        lemma_names_sorted(&after);
                        assert(names_of(names@) == after.name_seq());
                    }
                    guard.extend(names);
                    let result = Ok(changed(&before, &after));
                    Phase::Release { guard, result }
                },
            },
            Phase::Release { guard, result } => match exit_error(&event) {
                Some(_) => Phase::Aborted { guard },
                None => Phase::Done { result },
            },
            Phase::Done { result } => Phase::Done { result },
            Phase::Aborted { guard } => Phase::Aborted { guard },
        };
        UpgradeCycle { mark_only, phase }
    }
}

/// The error that a finished command's event reports, if any.
fn exit_error(event: &Event) -> (r: Option<UpgradeError>)
    requires
        event is Exited || event is NotStarted,
    ensures
        r == failure(event@),
{
    match event {
        Event::Exited(ExitOutcome::Failure { code }) => Some(
            UpgradeError::NonZeroExit { code: *code },
        ),
        Event::NotStarted => Some(UpgradeError::Invocation),
        _ => None,
    }
}

/// The inventory that a listing event reports, or why there is none.
fn read_listing(event: Event) -> (r: Result<Inventory, UpgradeError>)
    requires
        event is Listed || event is NotStarted,
    ensures
        failure(event@) matches Some(e) ==> r == Err::<Inventory, UpgradeError>(e),
        failure(event@) is None ==> (r matches Ok(inv) && inv.wf() && inv@ == listed(event@)),
{
    match event {
        Event::Listed(ExitOutcome::Failure { code }, _) => Err(UpgradeError::NonZeroExit { code }),
        Event::Listed(ExitOutcome::Success, output) => match parse_listing_bytes(output) {
            Some(inv) => Ok(inv),
            None => Err(UpgradeError::QueryParse),
        },
        _ => Err(UpgradeError::Invocation),
    }
}

/// How far a cycle has come; the two ends share the last rank.
pub open spec fn rank(s: Stage) -> int {
    match s {
        Stage::CheckAge => 0,
        Stage::Refresh => 1,
        Stage::ListBefore => 2,
        Stage::Unhold { .. } => 3,
        Stage::Upgrade { .. } => 4,
        Stage::ListAfter { .. } => 5,
        Stage::Release { .. } => 6,
        _ => 7,
    }
}

/// Every answered command moves a cycle strictly forward, so that a cycle
/// passes each stage, and issues each stage's command, at most once; a
/// finished or aborted cycle takes no more answers.
pub proof fn lemma_cycle_progresses(c: CycleView, e: EventView)
    requires
        accepts(c.stage, e),
    ensures
        rank(next(c, e).stage) > rank(c.stage),
        next(c, e).mark_only == c.mark_only,
        rank(c.stage) < 7,
{
}

/// The names whose hold a cycle has released and owes back, in the stages
/// that owe any.
pub open spec fn owed(s: Stage) -> Option<Seq<Seq<char>>> {
    match s {
        Stage::Upgrade { held, .. } => Some(held),
        Stage::ListAfter { held, .. } => Some(held),
        Stage::Release { held, .. } => Some(held),
        _ => None,
    }
}

/// Whatever the answers, the hold comes back: releasing the hold on the
/// listed packages makes them owed; while owed they stay owed, whether the
/// upgrade or the second listing succeeds or fails, and grow only by the
/// names of the second listing; the one way out is the hold command for the
/// whole owed list, after which the cycle is done or, when that hold failed,
/// aborted naming the list. A failed release of the hold owes nothing.
pub proof fn lemma_hold_restored(c: CycleView, e: EventView)
    requires
        accepts(c.stage, e),
    ensures
        c.stage is Unhold ==> command_of(c.stage) == CommandView::Unhold(sorted_names(c.stage->Unhold_before)),
        c.stage is Unhold ==> (e == EventView::Exited(ExitOutcome::Success) <==> owed(
            next(c, e).stage,
        ) == Some(sorted_names(c.stage->Unhold_before))),
        c.stage is Unhold && owed(next(c, e).stage) is None ==> next(c, e).stage is Done,
        owed(c.stage) is Some && !(c.stage is Release) ==> owed(next(c, e).stage) == Some(
            grown(c.stage, e),
        ),
        c.stage is Release ==> command_of(c.stage) == CommandView::Hold(c.stage->Release_held),
        c.stage is Release && !(next(c, e).stage is Done) ==> next(c, e).stage == (Stage::Aborted {
            held: c.stage->Release_held,
        }),
        owed(c.stage) is None && !(c.stage is Unhold) ==> owed(next(c, e).stage) is None,
{
}

/// What is owed after answer `e` in a stage that owes and does not release:
/// the names that a successful second listing finds, ascending, are added
/// after those owed.
pub open spec fn grown(s: Stage, e: EventView) -> Seq<Seq<char>> {
    match s {
        Stage::ListAfter { held, .. } => if failure(e) is None {
            held + sorted_names(listed(e))
        } else {
            held
        },
        Stage::Upgrade { held, .. } => held,
        _ => Seq::empty(),
    }
}

/// The stages that a mark-only cycle can reach, with what it may report.
pub open spec fn mark_only_stage(s: Stage) -> bool {
    match s {
        Stage::ListBefore => true,
        Stage::Unhold { .. } => true,
        Stage::Release { result, .. } => result == Ok::<bool, UpgradeError>(false),
        Stage::Done { result } => result != Ok::<bool, UpgradeError>(true),
        Stage::Aborted { .. } => true,
        _ => false,
    }
}

/// A mark-only cycle never checks or refreshes the index, never upgrades and
/// never reports that a reload is needed; once the hold on the listed
/// packages is released, it puts the hold back on exactly those packages.
pub proof fn lemma_mark_only(c: CycleView, e: EventView)
    requires
        c.mark_only,
        mark_only_stage(c.stage),
    ensures
        mark_only_stage(start(true).stage),
        !(command_of(c.stage) is CheckIndexAge),
        !(command_of(c.stage) is RefreshIndex),
        !(command_of(c.stage) is Upgrade),
        command_of(c.stage) != CommandView::Finish(Ok(true)),
        accepts(c.stage, e) ==> mark_only_stage(next(c, e).stage),
        c.stage is Unhold && e == EventView::Exited(ExitOutcome::Success) ==> next(c, e).stage == (
        Stage::Release { held: sorted_names(c.stage->Unhold_before), result: Ok(false) }),
{
}

/// Whether each event of `es` in turn answers the command of the stage it
/// meets, starting from `c`.
pub open spec fn answered(c: CycleView, es: Seq<EventView>) -> bool
    decreases es.len(),
{
    es.len() == 0 || (accepts(c.stage, es[0]) && answered(next(c, es[0]), es.drop_first()))
}

/// The stages that a cycle passes from `c` as the events `es` answer it.
pub open spec fn stages(c: CycleView, es: Seq<EventView>) -> Seq<Stage>
    decreases es.len(),
{
    if es.len() == 0 {
        seq![c.stage]
    } else {
        seq![c.stage] + stages(next(c, es[0]), es.drop_first())
    }
}

/// The commands that a cycle asks for from `c` as the events `es` answer it.
pub open spec fn issued(c: CycleView, es: Seq<EventView>) -> Seq<CommandView> {
    stages(c, es).map_values(|s: Stage| command_of(s))
}

/// Along any run the stages strictly ascend, so that no stage, and no
/// stage's command, comes twice.
pub proof fn lemma_run_ascends(c: CycleView, es: Seq<EventView>)
    requires
        answered(c, es),
    ensures
        stages(c, es).len() == es.len() + 1,
        stages(c, es)[0] == c.stage,
        forall|i: int, j: int|
            0 <= i < j < stages(c, es).len() ==> rank(#[trigger] stages(c, es)[i]) < rank(
                #[trigger] stages(c, es)[j],
            ),
    decreases es.len(),
{
    if es.len() > 0 {
        let d = next(c, es[0]);
        let t = stages(d, es.drop_first());
        lemma_run_ascends(d, es.drop_first());
        lemma_cycle_progresses(c, es[0]);
        let s = stages(c, es);
        assert(s == seq![c.stage] + t);
        assert forall|i: int, j: int| 0 <= i < j < s.len() implies rank(#[trigger] s[i]) < rank(
            #[trigger] s[j],
        ) by {
            assert(s[j] == t[j - 1]);
            if i == 0 {
                if j > 1 {
                    assert(rank(t[0]) < rank(t[j - 1]));
                }
            } else {
                assert(s[i] == t[i - 1]);
            }
        }
    }
}

proof fn lemma_mark_only_stages(c: CycleView, es: Seq<EventView>)
    requires
        c.mark_only,
        mark_only_stage(c.stage),
        answered(c, es),
    ensures
        forall|i: int| 0 <= i < stages(c, es).len() ==> mark_only_stage(#[trigger] stages(c, es)[i]),
        forall|i: int|
            0 < i < stages(c, es).len() && (#[trigger] stages(c, es)[i]) is Release ==> stages(
                c,
                es,
            )[i - 1] is Unhold && stages(c, es)[i]->Release_held == sorted_names(stages(c, es)[i
                - 1]->Unhold_before),
    decreases es.len(),
{
    lemma_run_ascends(c, es);
    if es.len() > 0 {
        let d = next(c, es[0]);
        let t = stages(d, es.drop_first());
        lemma_mark_only(c, es[0]);
        lemma_mark_only_stages(d, es.drop_first());
        lemma_run_ascends(d, es.drop_first());
        let s = stages(c, es);
        assert(s == seq![c.stage] + t);
        assert forall|i: int| 0 <= i < s.len() implies mark_only_stage(#[trigger] s[i]) by {
            if i > 0 {
                assert(s[i] == t[i - 1]);
            }
        }
        assert forall|i: int| 0 < i < s.len() && (#[trigger] s[i]) is Release implies s[i
            - 1] is Unhold && s[i]->Release_held == sorted_names(s[i - 1]->Unhold_before) by {
            assert(s[i] == t[i - 1]);
            if i > 1 {
                assert(s[i - 1] == t[i - 2]);
            }
        }
    }
}

/// Whether a mark-only cycle may ask for `c`: never an index check or
/// refresh, never an upgrade, never the report that a reload is needed.
pub open spec fn mark_only_command(c: CommandView) -> bool {
    &&& !(c is CheckIndexAge)
    &&& !(c is RefreshIndex)
    &&& !(c is Upgrade)
    &&& c != CommandView::Finish(Ok(true))
}

/// Whatever the answers, a mark-only run asks for no index check or
/// refresh and no upgrade, never reports that a reload is needed, releases
/// the hold at most once and holds again at most once, and the hold it puts
/// back comes right after, and covers exactly, the release of the hold on
/// the packages it listed.
pub proof fn lemma_mark_only_run(es: Seq<EventView>)
    requires
        answered(start(true), es),
    ensures
        forall|i: int|
            0 <= i < issued(start(true), es).len() ==> mark_only_command(
                #[trigger] issued(start(true), es)[i],
            ),
        forall|i: int, j: int|
            0 <= i < j < issued(start(true), es).len() && (#[trigger] issued(
                start(true),
                es,
            )[i]) is Unhold ==> !((#[trigger] issued(start(true), es)[j]) is Unhold),
        forall|i: int, j: int|
            0 <= i < j < issued(start(true), es).len() && (#[trigger] issued(
                start(true),
                es,
            )[i]) is Hold ==> !((#[trigger] issued(start(true), es)[j]) is Hold),
        forall|i: int|
            0 <= i < issued(start(true), es).len() && (#[trigger] issued(start(true), es)[i]) is Hold
                ==> i > 0 && issued(start(true), es)[i - 1] == CommandView::Unhold(
                issued(start(true), es)[i]->Hold_0,
            ),
{
    let c = start(true);
    lemma_run_ascends(c, es);
    lemma_mark_only_stages(c, es);
    let s = stages(c, es);
    let cs = issued(c, es);
    assert forall|i: int| 0 <= i < cs.len() implies mark_only_command(#[trigger] cs[i]) by {
        assert(mark_only_stage(s[i]));
        lemma_mark_only(CycleView { mark_only: true, stage: s[i] }, EventView::NotStarted);
    }
    assert forall|i: int, j: int| 0 <= i < j < cs.len() && (#[trigger] cs[i]) is Unhold implies !((
    #[trigger] cs[j]) is Unhold) by {
        assert(rank(s[i]) < rank(s[j]));
    }
    assert forall|i: int, j: int| 0 <= i < j < cs.len() && (#[trigger] cs[i]) is Hold implies !((
    #[trigger] cs[j]) is Hold) by {
        assert(rank(s[i]) < rank(s[j]));
    }
    assert forall|i: int| 0 <= i < cs.len() && (#[trigger] cs[i]) is Hold implies i > 0 && cs[i
        - 1] == CommandView::Unhold(cs[i]->Hold_0) by {
        assert(s[i] is Release);
        assert(s[0] == Stage::ListBefore);
    }
}

proof fn lemma_owed_until_release(c: CycleView, es: Seq<EventView>, h: Seq<Seq<char>>)
    requires
        answered(c, es),
        owed(c.stage) is Some,
        h.is_prefix_of(owed(c.stage)->0),
        owed(stages(c, es).last()) is None,
    ensures
        exists|j: int|
            0 <= j < stages(c, es).len() && (#[trigger] stages(c, es)[j]) is Release && h.is_prefix_of(
                stages(c, es)[j]->Release_held,
            ),
    decreases es.len(),
{
    lemma_run_ascends(c, es);
    let s = stages(c, es);
    if c.stage is Release {
        assert(s[0] is Release);
    } else {
        assert(es.len() > 0);
        let d = next(c, es[0]);
        let t = stages(d, es.drop_first());
        lemma_hold_restored(c, es[0]);
        lemma_run_ascends(d, es.drop_first());
        assert(s == seq![c.stage] + t);
        assert(s.last() == t.last());
        lemma_owed_until_release(d, es.drop_first(), h);
        let j = choose|j: int|
            0 <= j < t.len() && (#[trigger] t[j]) is Release && h.is_prefix_of(t[j]->Release_held);
        assert(s[j + 1] == t[j]);
    }
}

/// The hold is always put back: in a run that ends owing nothing (done,
/// aborted, or stopped before any hold was released), whatever failed on
/// the way, the list of names owed at any stage is the start of the list of
/// a later stage that asks to hold again (`command_of` of a release stage is
/// the hold command for its whole list).
pub proof fn lemma_run_restores_hold(c: CycleView, es: Seq<EventView>)
    requires
        answered(c, es),
        owed(stages(c, es).last()) is None,
    ensures
        forall|i: int|
            0 <= i < stages(c, es).len() && owed(#[trigger] stages(c, es)[i]) is Some ==> exists|
                j: int,
            |
                i <= j < stages(c, es).len() && (#[trigger] stages(c, es)[j]) is Release && owed(
                    stages(c, es)[i],
                )->0.is_prefix_of(stages(c, es)[j]->Release_held),
    decreases es.len(),
{
    lemma_run_ascends(c, es);
    let s = stages(c, es);
    if es.len() > 0 {
        let d = next(c, es[0]);
        let t = stages(d, es.drop_first());
        lemma_run_ascends(d, es.drop_first());
        assert(s == seq![c.stage] + t);
        assert(s.last() == t.last());
        lemma_run_restores_hold(d, es.drop_first());
        assert forall|i: int| 0 <= i < s.len() && owed(#[trigger] s[i]) is Some implies exists|
            j: int,
        |
            i <= j < s.len() && (#[trigger] s[j]) is Release && owed(s[i])->0.is_prefix_of(
                s[j]->Release_held,
            ) by {
            if i == 0 {
                lemma_owed_until_release(c, es, owed(c.stage)->0);
            } else {
                assert(s[i] == t[i - 1]);
                let j = choose|j: int|
                    i - 1 <= j < t.len() && (#[trigger] t[j]) is Release && owed(
                        t[i - 1],
                    )->0.is_prefix_of(t[j]->Release_held);
                assert(s[j + 1] == t[j]);
            }
        }
    } else {
        assert(s == seq![c.stage]);
    }
}

/// A second listing that differs from the first leads, once the hold is put
/// back, to the report that a reload is needed, and recovery then starts by
/// unloading the module; an unchanged listing leads to no recovery.
pub proof fn lemma_change_starts_reload(c: CycleView, listing: EventView, hold: EventView)
    requires
        c.stage is ListAfter,
        listing is Listed,
        failure(listing) is None,
        hold == EventView::Exited(ExitOutcome::Success),
    ensures
        next(next(c, listing), hold).stage == (Stage::Done {
            result: Ok(c.stage->ListAfter_before != listed(listing)),
        }),
        recovery(Ok(c.stage->ListAfter_before != listed(listing))) == (if c.stage->ListAfter_before
            != listed(listing) {
            Some(Reload::Unload)
        } else {
            None
        }),
        reload_command(Reload::Unload) == ReloadCommand::UnloadModule,
{
}

} // verus!
