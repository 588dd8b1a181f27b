//! The order of an update run, as a state machine: check the accounts, ask
//! before stopping a running Steam, bootstrap SteamCMD, go through the
//! accounts in order (fetching the app catalogue once, when a pattern first
//! needs it), then relaunch Steam. The program performs each step and
//! reports back with an event.
use vstd::prelude::*;
use crate::settings::{
    account_action, account_action_spec, account_at, account_entries, accounts_len, dedup,
    merge_app_ids, Account, AccountAction, Settings,
};

verus! {

/// Where a run stands.
#[derive(Clone, Copy, PartialEq, Eq, Structural, Debug)]
pub enum RunPhase {
    /// Nothing done yet.
    Start,
    /// The countdown dialog is up.
    Dialog,
    /// Steam is being shut down.
    StoppingSteam,
    /// SteamCMD is being installed and the library folder created.
    Installing,
    /// The current account was reported skipped.
    Skipping,
    /// The app catalogue is being fetched for the current account.
    FetchingCatalogue,
    /// The current account's title patterns are being resolved.
    Resolving,
    /// The current account's apps are being updated.
    Updating,
    /// Steam is being relaunched.
    Launching,
    /// The user aborted; nothing more happens.
    Aborted,
    /// The run is over.
    Finished,
}

/// The state of a run: the phase, the current account (by its position in
/// the settings), whether the catalogue was asked for, and the App IDs of
/// the current account with how many of them were handed out.
pub struct RunState {
    pub phase: RunPhase,
    pub account: usize,
    pub catalogue_requested: bool,
    pub pending: Vec<u32>,
    pub next: usize,
}

pub struct RunView {
    pub phase: RunPhase,
    pub account: nat,
    pub catalogue_requested: bool,
    pub pending: Seq<u32>,
    pub next: nat,
}

impl View for RunState {
    type V = RunView;

    open spec fn view(&self) -> RunView {
        RunView {
            phase: self.phase,
            account: self.account as nat,
            catalogue_requested: self.catalogue_requested,
            pending: self.pending@,
            next: self.next as nat,
        }
    }
}

/// What the program reports after a step.
pub enum RunEvent {
    /// The run begins; whether Steam is running.
    Started { steam_running: bool },
    /// The dialog closed; whether to go ahead.
    DialogClosed { proceed: bool },
    /// The App IDs that the current account's patterns resolved to.
    Resolved(Vec<u32>),
    /// The step is done.
    Done,
}

/// Why an account is skipped.
#[derive(Clone, Copy, PartialEq, Eq, Structural, Debug)]
pub enum SkipReason {
    NoPassword,
    NoApps,
}

/// What the program does next.
#[derive(Clone, Copy, PartialEq, Eq, Structural, Debug)]
pub enum RunStep {
    /// Fail: the settings hold no account.
    NoAccounts,
    /// Show the countdown dialog.
    ShowDialog,
    /// Shut Steam down.
    StopSteam,
    /// Install SteamCMD (when missing) and create the library folder.
    InstallSteamCmd,
    /// Report the account skipped.
    Skip { account: usize, reason: SkipReason },
    /// Fetch the app catalogue.
    FetchCatalogue,
    /// Resolve the account's title patterns against the catalogue.
    ResolvePatterns { account: usize },
    /// Report how many apps the account updates.
    Announce { account: usize, apps: usize },
    /// Update one app with the account's login.
    UpdateApp { account: usize, app_id: u32 },
    /// Relaunch Steam, logged in as the first account (`first_account`).
    LaunchSteam,
    /// Stop: the user aborted.
    Abort,
    /// Stop: the run is complete.
    Finish,
    /// Nothing: the event does not fit the phase.
    Wait,
}

pub open spec fn view_at(
    phase: RunPhase,
    account: nat,
    requested: bool,
    pending: Seq<u32>,
    next: nat,
) -> RunView {
    RunView { phase, account, catalogue_requested: requested, pending, next }
}

/// Updating account `k` with the App IDs `ids`: announce their number.
pub open spec fn begin_updates(k: nat, requested: bool, ids: Seq<u32>) -> (RunView, RunStep) {
    (
        view_at(RunPhase::Updating, k, requested, ids, 0),
        RunStep::Announce { account: k as usize, apps: ids.len() as usize },
    )
}

/// Turning to account `k` (in the settings' order): skip it, fetch the
/// catalogue or resolve its patterns, or update its App IDs; after the last
/// account, relaunch Steam.
pub open spec fn enter_account(es: Seq<(String, Account)>, k: nat, requested: bool) -> (
    RunView,
    RunStep,
) {
    let empty = Seq::<u32>::empty();
    if k >= es.len() {
        (view_at(RunPhase::Launching, k, requested, empty, 0), RunStep::LaunchSteam)
    } else {
        let a = es[k as int].1;
        match account_action_spec(a) {
            AccountAction::SkipNoPassword => (
                view_at(RunPhase::Skipping, k, requested, empty, 0),
                RunStep::Skip { account: k as usize, reason: SkipReason::NoPassword },
            ),
            AccountAction::SkipNoApps => (
                view_at(RunPhase::Skipping, k, requested, empty, 0),
                RunStep::Skip { account: k as usize, reason: SkipReason::NoApps },
            ),
            AccountAction::Update { resolve_patterns } => if !resolve_patterns {
                begin_updates(k, requested, dedup(a.app_ids@ + empty))
            } else if requested {
                (
                    view_at(RunPhase::Resolving, k, true, empty, 0),
                    RunStep::ResolvePatterns { account: k as usize },
                )
            } else {
                (view_at(RunPhase::FetchingCatalogue, k, true, empty, 0), RunStep::FetchCatalogue)
            },
        }
    }
}

/// One transition of a run over the accounts `es`.
pub open spec fn next_step_spec(es: Seq<(String, Account)>, s: RunView, e: RunEvent) -> (
    RunView,
    RunStep,
) {
    let empty = Seq::<u32>::empty();
    let k = s.account;
    let req = s.catalogue_requested;
    match (s.phase, e) {
        (RunPhase::Start, RunEvent::Started { steam_running }) => if es.len() == 0 {
            (view_at(RunPhase::Finished, 0, req, empty, 0), RunStep::NoAccounts)
        } else if steam_running {
            (view_at(RunPhase::Dialog, 0, req, empty, 0), RunStep::ShowDialog)
        } else {
            (view_at(RunPhase::Installing, 0, req, empty, 0), RunStep::InstallSteamCmd)
        },
        (RunPhase::Dialog, RunEvent::DialogClosed { proceed }) => if proceed {
            (view_at(RunPhase::StoppingSteam, k, req, empty, 0), RunStep::StopSteam)
        } else {
            (view_at(RunPhase::Aborted, k, req, empty, 0), RunStep::Abort)
        },
        (RunPhase::StoppingSteam, RunEvent::Done) => (
            view_at(RunPhase::Installing, k, req, empty, 0),
            RunStep::InstallSteamCmd,
        ),
        (RunPhase::Installing, RunEvent::Done) => enter_account(es, 0, req),
        (RunPhase::Skipping, RunEvent::Done) => if k < es.len() {
            enter_account(es, k + 1, req)
        } else {
            (s, RunStep::Wait)
        },
        (RunPhase::FetchingCatalogue, RunEvent::Done) => if k < es.len() {
            (view_at(RunPhase::Resolving, k, req, empty, 0), RunStep::ResolvePatterns { account: k as usize })
        } else {
            (s, RunStep::Wait)
        },
        (RunPhase::Resolving, RunEvent::Resolved(ids)) => if k < es.len() {
            begin_updates(k, req, dedup(es[k as int].1.app_ids@ + ids@))
        } else {
            (s, RunStep::Wait)
        },
        (RunPhase::Updating, RunEvent::Done) => if k >= es.len() {
            (s, RunStep::Wait)
        } else if s.next < s.pending.len() {
            (
                view_at(RunPhase::Updating, k, req, s.pending, s.next + 1),
                RunStep::UpdateApp { account: k as usize, app_id: s.pending[s.next as int] },
            )
        } else {
            enter_account(es, k + 1, req)
        },
        (RunPhase::Launching, RunEvent::Done) => (
            view_at(RunPhase::Finished, k, req, empty, 0),
            RunStep::Finish,
        ),
        _ => (s, RunStep::Wait),
    }
}

impl RunState {
    /// The state before anything is done.
    pub fn new() -> (s: RunState)
        ensures
            s@ == view_at(RunPhase::Start, 0, false, Seq::empty(), 0),
    {
        RunState {
            phase: RunPhase::Start,
            account: 0,
            catalogue_requested: false,
            pending: Vec::new(),
            next: 0,
        }
    }
}

fn state_at(phase: RunPhase, account: usize, requested: bool) -> (s: RunState)
    ensures
        s@ == view_at(phase, account as nat, requested, Seq::empty(), 0),
{
    RunState { phase, account, catalogue_requested: requested, pending: Vec::new(), next: 0 }
}

fn enter_account_exec(settings: &Settings, k: usize, requested: bool) -> (r: (RunState, RunStep))
    requires
        k <= account_entries(settings.accounts).len(),
    ensures
        (r.0@, r.1) == enter_account(account_entries(settings.accounts), k as nat, requested),
{
    let ghost es = account_entries(settings.accounts);
    match account_at(&settings.accounts, k) {
        None => (state_at(RunPhase::Launching, k, requested), RunStep::LaunchSteam),
        Some((_, a)) => {
            assert(*a == es[k as int].1);
            match account_action(a) {
                AccountAction::SkipNoPassword => (
                    state_at(RunPhase::Skipping, k, requested),
                    RunStep::Skip { account: k, reason: SkipReason::NoPassword },
                ),
                AccountAction::SkipNoApps => (
                    state_at(RunPhase::Skipping, k, requested),
                    RunStep::Skip { account: k, reason: SkipReason::NoApps },
                ),
                AccountAction::Update { resolve_patterns } => if !resolve_patterns {
                    let none: Vec<u32> = Vec::new();
                    let ids = merge_app_ids(a.app_ids.as_slice(), none.as_slice());
                    assert(none@ =~= Seq::<u32>::empty());
                    let n = ids.len();
                    (
                        RunState {
                            phase: RunPhase::Updating,
                            account: k,
                            catalogue_requested: requested,
                            pending: ids,
                            next: 0,
                        },
                        RunStep::Announce { account: k, apps: n },
                    )
                } else if requested {
                    (state_at(RunPhase::Resolving, k, true), RunStep::ResolvePatterns { account: k })
                } else {
                    (state_at(RunPhase::FetchingCatalogue, k, true), RunStep::FetchCatalogue)
                },
            }
        },
    }
}

/// The next step of the run over `settings`'s accounts, from `state` and
/// the program's report `event`.
pub fn next_step(settings: &Settings, state: &RunState, event: RunEvent) -> (r: (
    RunState,
    RunStep,
))
    ensures
        (r.0@, r.1) == next_step_spec(account_entries(settings.accounts), state@, event),
{
    let ghost es = account_entries(settings.accounts);
    let n = accounts_len(&settings.accounts);
    let k = state.account;
    let req = state.catalogue_requested;
    let same = RunState {
        phase: state.phase,
        account: state.account,
        catalogue_requested: state.catalogue_requested,
        pending: state.pending.clone(),
        next: state.next,
    };
    assert(same.pending@ =~= state.pending@);
    match (state.phase, event) {
        (RunPhase::Start, RunEvent::Started { steam_running }) => if n == 0 {
            (state_at(RunPhase::Finished, 0, req), RunStep::NoAccounts)
        } else if steam_running {
            (state_at(RunPhase::Dialog, 0, req), RunStep::ShowDialog)
        } else {
            (state_at(RunPhase::Installing, 0, req), RunStep::InstallSteamCmd)
        },
        (RunPhase::Dialog, RunEvent::DialogClosed { proceed }) => if proceed {
            (state_at(RunPhase::StoppingSteam, k, req), RunStep::StopSteam)
        } else {
            (state_at(RunPhase::Aborted, k, req), RunStep::Abort)
        },
        (RunPhase::StoppingSteam, RunEvent::Done) => (
            state_at(RunPhase::Installing, k, req),
            RunStep::InstallSteamCmd,
        ),
        (RunPhase::Installing, RunEvent::Done) => enter_account_exec(settings, 0, req),
        (RunPhase::Skipping, RunEvent::Done) => if k < n {
            enter_account_exec(settings, k + 1, req)
        } else {
            (same, RunStep::Wait)
        },
        (RunPhase::FetchingCatalogue, RunEvent::Done) => if k < n {
            (state_at(RunPhase::Resolving, k, req), RunStep::ResolvePatterns { account: k })
        } else {
            (same, RunStep::Wait)
        },
        (RunPhase::Resolving, RunEvent::Resolved(resolved)) => match account_at(
            &settings.accounts,
            k,
        ) {
            None => (same, RunStep::Wait),
            Some((_, a)) => {
                let ids = merge_app_ids(a.app_ids.as_slice(), resolved.as_slice());
                let count = ids.len();
                (
                    RunState {
                        phase: RunPhase::Updating,
                        account: k,
                        catalogue_requested: req,
                        pending: ids,
                        next: 0,
                    },
                    RunStep::Announce { account: k, apps: count },
                )
            },
        },
        (RunPhase::Updating, RunEvent::Done) => if k >= n {
            (same, RunStep::Wait)
        } else if state.next < state.pending.len() {
            let id = state.pending[state.next];
            (
                RunState {
                    phase: RunPhase::Updating,
                    account: k,
                    catalogue_requested: req,
                    pending: same.pending,
                    next: state.next + 1,
                },
                RunStep::UpdateApp { account: k, app_id: id },
            )
        } else {
            enter_account_exec(settings, k + 1, req)
        },
        (RunPhase::Launching, RunEvent::Done) => (
            state_at(RunPhase::Finished, k, req),
            RunStep::Finish,
        ),
        _ => (same, RunStep::Wait),
    }
}


// ── runs ────────────────────────────────────────────────────────────────────

/// The state a run from `s` ends in after the events, and the steps it
/// produced, in order.
pub open spec fn run_from(es: Seq<(String, Account)>, s: RunView, events: Seq<RunEvent>) -> (
    RunView,
    Seq<RunStep>,
)
    decreases events.len(),
{
    if events.len() == 0 {
        (s, Seq::empty())
    } else {
        let (s1, st) = next_step_spec(es, s, events[0]);
        let (f, rest) = run_from(es, s1, events.drop_first());
        (f, seq![st] + rest)
    }
}

/// How many of the steps fetch the catalogue.
pub open spec fn fetch_count(steps: Seq<RunStep>) -> nat
    decreases steps.len(),
{
    if steps.len() == 0 {
        0
    } else {
        (if steps[0] == RunStep::FetchCatalogue {
            1nat
        } else {
            0nat
        }) + fetch_count(steps.drop_first())
    }
}

proof fn lemma_run_unfold(es: Seq<(String, Account)>, s: RunView, events: Seq<RunEvent>)
    requires
        events.len() > 0,
    ensures
        ({
            let (s1, st) = next_step_spec(es, s, events[0]);
            let steps = run_from(es, s, events).1;
            let rest = run_from(es, s1, events.drop_first()).1;
            &&& steps.len() == rest.len() + 1
            &&& steps[0] == st
            &&& forall|j: int| 0 < j < steps.len() ==> #[trigger] steps[j] == rest[j - 1]
        }),
{
}

/// Steam is stopped only on the user's go-ahead: a `StopSteam` step comes
/// from the dialog, closed with "proceed".
pub proof fn lemma_stop_needs_consent(es: Seq<(String, Account)>, s: RunView, e: RunEvent)
    ensures
        next_step_spec(es, s, e).1 == RunStep::StopSteam ==> s.phase == RunPhase::Dialog && (e
            matches RunEvent::DialogClosed { proceed } && proceed),
{
}

/// In a run from any state other than the dialog's, every `StopSteam` step
/// comes after a `ShowDialog` step: Steam is never stopped without asking.
pub proof fn lemma_dialog_before_stop(es: Seq<(String, Account)>, s: RunView, events: Seq<RunEvent>)
    requires
        s.phase != RunPhase::Dialog,
    ensures
        forall|j: int|
            0 <= j < run_from(es, s, events).1.len() && run_from(es, s, events).1[j]
                == RunStep::StopSteam ==> exists|i: int|
                0 <= i < j && run_from(es, s, events).1[i] == RunStep::ShowDialog,
    decreases events.len(),
{
    if events.len() > 0 {
        let (s1, st) = next_step_spec(es, s, events[0]);
        let steps = run_from(es, s, events).1;
        let rest = run_from(es, s1, events.drop_first()).1;
        lemma_run_unfold(es, s, events);
        lemma_stop_needs_consent(es, s, events[0]);
        if st != RunStep::ShowDialog {
            lemma_dialog_before_stop(es, s1, events.drop_first());
            assert forall|j: int|
                0 <= j < steps.len() && steps[j] == RunStep::StopSteam implies exists|i: int|
                0 <= i < j && steps[i] == RunStep::ShowDialog by {
                assert(j > 0);
                assert(rest[j - 1] == RunStep::StopSteam);
                let i = choose|i: int| 0 <= i < j - 1 && rest[i] == RunStep::ShowDialog;
                assert(steps[i + 1] == RunStep::ShowDialog);
            }
        } else {
            assert forall|j: int|
                0 <= j < steps.len() && steps[j] == RunStep::StopSteam implies exists|i: int|
                0 <= i < j && steps[i] == RunStep::ShowDialog by {
                assert(steps[0] == RunStep::ShowDialog);
            }
        }
    }
}

proof fn lemma_aborted_stays(es: Seq<(String, Account)>, s: RunView, events: Seq<RunEvent>)
    requires
        s.phase == RunPhase::Aborted,
    ensures
        forall|j: int|
            0 <= j < run_from(es, s, events).1.len() ==> #[trigger] run_from(es, s, events).1[j]
                == RunStep::Wait,
    decreases events.len(),
{
    if events.len() > 0 {
        lemma_run_unfold(es, s, events);
        lemma_aborted_stays(es, s, events.drop_first());
    }
}

/// After the user aborts, nothing more happens: every step after an
/// `Abort` is `Wait`.
pub proof fn lemma_abort_is_final(es: Seq<(String, Account)>, s: RunView, events: Seq<RunEvent>)
    ensures
        forall|i: int, j: int|
            #![trigger run_from(es, s, events).1[i], run_from(es, s, events).1[j]]
            0 <= i < j < run_from(es, s, events).1.len() && run_from(es, s, events).1[i]
                == RunStep::Abort ==> run_from(es, s, events).1[j] == RunStep::Wait,
    decreases events.len(),
{
    if events.len() > 0 {
        let (s1, st) = next_step_spec(es, s, events[0]);
        let steps = run_from(es, s, events).1;
        let rest = run_from(es, s1, events.drop_first()).1;
        lemma_run_unfold(es, s, events);
        lemma_abort_is_final(es, s1, events.drop_first());
        if st == RunStep::Abort {
            assert(s1.phase == RunPhase::Aborted);
            lemma_aborted_stays(es, s1, events.drop_first());
        }
        assert forall|i: int, j: int|
            #![trigger steps[i], steps[j]]
            0 <= i < j < steps.len() && steps[i] == RunStep::Abort implies steps[j]
            == RunStep::Wait by {
            assert(steps[j] == rest[j - 1]);
            if i > 0 {
                assert(steps[i] == rest[i - 1]);
            }
        }
    }
}

/// The catalogue is fetched only for an account whose title patterns need
/// it, and only while it has not been asked for.
pub proof fn lemma_fetch_only_when_needed(es: Seq<(String, Account)>, s: RunView, e: RunEvent)
    ensures
        ({
            let (s1, st) = next_step_spec(es, s, e);
            &&& s.catalogue_requested ==> s1.catalogue_requested
            &&& st == RunStep::FetchCatalogue ==> {
                &&& !s.catalogue_requested
                &&& s1.catalogue_requested
                &&& s1.account < es.len()
                &&& account_action_spec(es[s1.account as int].1) == (AccountAction::Update {
                    resolve_patterns: true,
                })
            }
        }),
{
}

/// In any run, the catalogue is fetched at most once, and not at all once
/// it has been asked for.
pub proof fn lemma_catalogue_fetched_once(
    es: Seq<(String, Account)>,
    s: RunView,
    events: Seq<RunEvent>,
)
    ensures
        fetch_count(run_from(es, s, events).1) <= (if s.catalogue_requested {
            0nat
        } else {
            1nat
        }),
    decreases events.len(),
{
    if events.len() > 0 {
        let (s1, st) = next_step_spec(es, s, events[0]);
        let steps = run_from(es, s, events).1;
        let rest = run_from(es, s1, events.drop_first()).1;
        lemma_run_unfold(es, s, events);
        lemma_fetch_only_when_needed(es, s, events[0]);
        lemma_catalogue_fetched_once(es, s1, events.drop_first());
        assert(steps.drop_first() =~= rest);
    }
}

/// Steam is relaunched only once every account has been gone through.
pub proof fn lemma_launch_after_accounts(es: Seq<(String, Account)>, s: RunView, e: RunEvent)
    ensures
        next_step_spec(es, s, e).1 == RunStep::LaunchSteam ==> next_step_spec(es, s, e).0.phase
            == RunPhase::Launching && next_step_spec(es, s, e).0.account >= es.len(),
{
}

proof fn lemma_launched_stays(es: Seq<(String, Account)>, s: RunView, events: Seq<RunEvent>)
    requires
        s.phase == RunPhase::Launching || s.phase == RunPhase::Finished,
    ensures
        forall|j: int|
            0 <= j < run_from(es, s, events).1.len() ==> #[trigger] run_from(es, s, events).1[j]
                == RunStep::Finish || run_from(es, s, events).1[j] == RunStep::Wait,
    decreases events.len(),
{
    if events.len() > 0 {
        let (s1, st) = next_step_spec(es, s, events[0]);
        lemma_run_unfold(es, s, events);
        lemma_launched_stays(es, s1, events.drop_first());
    }
}

/// Relaunching Steam is the last thing a run does: after a `LaunchSteam`
/// step come only `Finish` and `Wait`, so no update follows it.
pub proof fn lemma_launch_is_last(es: Seq<(String, Account)>, s: RunView, events: Seq<RunEvent>)
    ensures
        forall|i: int, j: int|
            #![trigger run_from(es, s, events).1[i], run_from(es, s, events).1[j]]
            0 <= i < j < run_from(es, s, events).1.len() && run_from(es, s, events).1[i]
                == RunStep::LaunchSteam ==> run_from(es, s, events).1[j] == RunStep::Finish
                || run_from(es, s, events).1[j] == RunStep::Wait,
    decreases events.len(),
{
    if events.len() > 0 {
        let (s1, st) = next_step_spec(es, s, events[0]);
        let steps = run_from(es, s, events).1;
        let rest = run_from(es, s1, events.drop_first()).1;
        lemma_run_unfold(es, s, events);
        lemma_launch_is_last(es, s1, events.drop_first());
        if st == RunStep::LaunchSteam {
            lemma_launch_after_accounts(es, s, events[0]);
            lemma_launched_stays(es, s1, events.drop_first());
        }
        assert forall|i: int, j: int|
            #![trigger steps[i], steps[j]]
            0 <= i < j < steps.len() && steps[i] == RunStep::LaunchSteam implies steps[j]
            == RunStep::Finish || steps[j] == RunStep::Wait by {
            assert(steps[j] == rest[j - 1]);
            if i > 0 {
                assert(steps[i] == rest[i - 1]);
            }
        }
    }
}


/// The catalogue is marked as asked for exactly when a step fetches it:
/// every other transition, updating an account without title patterns
/// included, leaves the mark as it was.
pub proof fn lemma_requested_only_by_fetch(es: Seq<(String, Account)>, s: RunView, e: RunEvent)
    ensures
        next_step_spec(es, s, e).0.catalogue_requested == (s.catalogue_requested
            || next_step_spec(es, s, e).1 == RunStep::FetchCatalogue),
{
}

/// Patterns are resolved only against a fetched catalogue: a
/// `ResolvePatterns` step comes when the catalogue was asked for before, or
/// right after the fetch for this account.
pub proof fn lemma_resolve_needs_catalogue(es: Seq<(String, Account)>, s: RunView, e: RunEvent)
    ensures
        next_step_spec(es, s, e).1 is ResolvePatterns ==> s.catalogue_requested || s.phase
            == RunPhase::FetchingCatalogue,
        next_step_spec(es, s, e).0.phase == RunPhase::FetchingCatalogue ==> next_step_spec(
            es,
            s,
            e,
        ).1 == RunStep::FetchCatalogue || s.phase == RunPhase::FetchingCatalogue,
{
}

/// In a run from a state where the catalogue has not been asked for (the
/// start of every run), each `ResolvePatterns` step comes after a
/// `FetchCatalogue` step: the catalogue is fetched before any pattern is
/// resolved.
pub proof fn lemma_fetch_before_resolve(es: Seq<(String, Account)>, s: RunView, events: Seq<RunEvent>)
    requires
        !s.catalogue_requested,
        s.phase != RunPhase::FetchingCatalogue,
    ensures
        forall|j: int|
            0 <= j < run_from(es, s, events).1.len() && run_from(es, s, events).1[j] is ResolvePatterns
                ==> exists|i: int|
                0 <= i < j && run_from(es, s, events).1[i] == RunStep::FetchCatalogue,
    decreases events.len(),
{
    if events.len() > 0 {
        let (s1, st) = next_step_spec(es, s, events[0]);
        let steps = run_from(es, s, events).1;
        let rest = run_from(es, s1, events.drop_first()).1;
        lemma_run_unfold(es, s, events);
        lemma_requested_only_by_fetch(es, s, events[0]);
        lemma_resolve_needs_catalogue(es, s, events[0]);
        if st != RunStep::FetchCatalogue {
            lemma_fetch_before_resolve(es, s1, events.drop_first());
            assert forall|j: int|
                0 <= j < steps.len() && steps[j] is ResolvePatterns implies exists|i: int|
                0 <= i < j && steps[i] == RunStep::FetchCatalogue by {
                assert(j > 0);
                assert(rest[j - 1] is ResolvePatterns);
                let i = choose|i: int| 0 <= i < j - 1 && rest[i] == RunStep::FetchCatalogue;
                assert(steps[i + 1] == RunStep::FetchCatalogue);
            }
        } else {
            assert forall|j: int|
                0 <= j < steps.len() && steps[j] is ResolvePatterns implies exists|i: int|
                0 <= i < j && steps[i] == RunStep::FetchCatalogue by {
                assert(steps[0] == RunStep::FetchCatalogue);
            }
        }
    }
}

} // verus!
