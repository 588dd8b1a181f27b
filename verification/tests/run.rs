use indexmap::IndexMap;
use rs_steam_updater::run::{next_step, RunEvent, RunState, RunStep, SkipReason};
use rs_steam_updater::settings::{Account, Settings};

fn account(password: Option<&str>, ids: Vec<u32>, res: Vec<&str>) -> Account {
    Account {
        password: password.map(|p| p.to_string()),
        app_ids: ids,
        app_res: res.into_iter().map(|r| r.to_string()).collect(),
    }
}

fn settings(accounts: Vec<(&str, Account)>) -> Settings {
    let mut map = IndexMap::new();
    for (name, a) in accounts {
        map.insert(name.to_string(), a);
    }
    Settings { library_root: None, accounts: map }
}

/// Drives a run: answers the dialog with `proceed`, resolves every pattern
/// to `resolved`, and collects the steps up to the end.
fn drive(s: &Settings, steam_running: bool, proceed: bool, resolved: &[u32]) -> Vec<RunStep> {
    let mut state = RunState::new();
    let mut event = RunEvent::Started { steam_running };
    let mut steps = Vec::new();
    loop {
        let (next, step) = next_step(s, &state, event);
        state = next;
        steps.push(step);
        event = match step {
            RunStep::ShowDialog => RunEvent::DialogClosed { proceed },
            RunStep::ResolvePatterns { .. } => RunEvent::Resolved(resolved.to_vec()),
            RunStep::NoAccounts | RunStep::Abort | RunStep::Finish | RunStep::Wait => break,
            _ => RunEvent::Done,
        };
    }
    steps
}

#[test]
fn full_run_in_order() {
    let s = settings(vec![
        ("alice", account(Some("pw"), vec![730, 570], vec!["^Portal$"])),
        ("bob", account(None, vec![1], vec![])),
        ("carol", account(Some("pw"), vec![], vec![])),
        ("dave", account(Some("pw"), vec![440], vec!["^Dota"])),
    ]);
    let steps = drive(&s, true, true, &[570, 400]);
    assert_eq!(
        steps,
        vec![
            RunStep::ShowDialog,
            RunStep::StopSteam,
            RunStep::InstallSteamCmd,
            RunStep::FetchCatalogue,
            RunStep::ResolvePatterns { account: 0 },
            RunStep::Announce { account: 0, apps: 3 },
            RunStep::UpdateApp { account: 0, app_id: 730 },
            RunStep::UpdateApp { account: 0, app_id: 570 },
            RunStep::UpdateApp { account: 0, app_id: 400 },
            RunStep::Skip { account: 1, reason: SkipReason::NoPassword },
            RunStep::Skip { account: 2, reason: SkipReason::NoApps },
            RunStep::ResolvePatterns { account: 3 },
            RunStep::Announce { account: 3, apps: 3 },
            RunStep::UpdateApp { account: 3, app_id: 440 },
            RunStep::UpdateApp { account: 3, app_id: 570 },
            RunStep::UpdateApp { account: 3, app_id: 400 },
            RunStep::LaunchSteam,
            RunStep::Finish,
        ]
    );
}

#[test]
fn abort_stops_before_steam_is_touched() {
    let s = settings(vec![("alice", account(Some("pw"), vec![1], vec![]))]);
    assert_eq!(drive(&s, true, false, &[]), vec![RunStep::ShowDialog, RunStep::Abort]);
}

#[test]
fn closed_steam_needs_no_dialog_and_no_catalogue() {
    let s = settings(vec![("alice", account(Some("pw"), vec![5, 5], vec![]))]);
    assert_eq!(
        drive(&s, false, true, &[]),
        vec![
            RunStep::InstallSteamCmd,
            RunStep::Announce { account: 0, apps: 1 },
            RunStep::UpdateApp { account: 0, app_id: 5 },
            RunStep::LaunchSteam,
            RunStep::Finish,
        ]
    );
}

#[test]
fn no_accounts_fails_first() {
    let s = settings(vec![]);
    assert_eq!(drive(&s, true, true, &[]), vec![RunStep::NoAccounts]);
}

#[test]
fn out_of_order_event_waits() {
    let s = settings(vec![("alice", account(Some("pw"), vec![1], vec![]))]);
    let (state, step) = next_step(&s, &RunState::new(), RunEvent::Done);
    assert_eq!(step, RunStep::Wait);
    let (_, step) = next_step(&s, &state, RunEvent::Started { steam_running: false });
    assert_eq!(step, RunStep::InstallSteamCmd);
}
