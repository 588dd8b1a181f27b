use indexmap::IndexMap;
use rs_steam_updater::settings::{
    account_action, merge_app_ids, Account, AccountAction, Settings, SettingsError,
};

fn account(password: Option<&str>, ids: Vec<u32>, res: Vec<&str>) -> Account {
    Account {
        password: password.map(|p| p.to_string()),
        app_ids: ids,
        app_res: res.into_iter().map(|r| r.to_string()).collect(),
    }
}

#[test]
fn empty_accounts_are_refused() {
    let s = Settings { library_root: None, accounts: IndexMap::new() };
    assert_eq!(s.validate().err(), Some(SettingsError::NoAccounts));
}

#[test]
fn library_root_default_and_first_account() {
    let mut accounts = IndexMap::new();
    accounts.insert("first".to_string(), account(None, vec![1], vec![]));
    accounts.insert("second".to_string(), account(Some("pw"), vec![2], vec![]));
    let s = Settings { library_root: None, accounts }.validate().ok().unwrap();
    assert_eq!(s.library_root(), r"C:\Program Files (x86)\Steam");
    assert_eq!(s.first_account(), Some(("first".to_string(), String::new())));
    let s = Settings { library_root: Some(r"D:\L".to_string()), accounts: s.accounts };
    assert_eq!(s.library_root(), r"D:\L");
}

#[test]
fn account_actions() {
    assert_eq!(account_action(&account(None, vec![1], vec![])), AccountAction::SkipNoPassword);
    assert_eq!(account_action(&account(Some("p"), vec![], vec![])), AccountAction::SkipNoApps);
    assert_eq!(
        account_action(&account(Some("p"), vec![1], vec![])),
        AccountAction::Update { resolve_patterns: false }
    );
    assert_eq!(
        account_action(&account(Some("p"), vec![], vec!["^Portal$"])),
        AccountAction::Update { resolve_patterns: true }
    );
}

#[test]
fn merged_ids_keep_first_occurrences() {
    assert_eq!(merge_app_ids(&[730, 570, 730], &[440, 570, 10]), vec![730, 570, 440, 10]);
    assert_eq!(merge_app_ids(&[], &[]), Vec::<u32>::new());
}
