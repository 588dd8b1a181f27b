use rs_steam_updater::steam_api::{match_pattern, resolve_app_res};

fn catalogue() -> Vec<(u32, String)> {
    vec![
        (400, "Portal".to_string()),
        (620, "Portal 2".to_string()),
        (570, "Dota 2".to_string()),
    ]
}

#[test]
fn patterns_resolve_in_order() {
    let ids = resolve_app_res(&["^Portal$".to_string(), "2$".to_string()], &catalogue());
    assert_eq!(ids, vec![400, 620, 570]);
}

#[test]
fn invalid_pattern_adds_nothing() {
    let ids = resolve_app_res(&["(".to_string(), "Dota".to_string()], &catalogue());
    assert_eq!(ids, vec![570]);
    assert!(match_pattern("(", &catalogue()).is_err());
}

#[test]
fn match_pattern_lists_entries() {
    assert_eq!(
        match_pattern("Portal", &catalogue()).unwrap(),
        vec![(400, "Portal".to_string()), (620, "Portal 2".to_string())]
    );
    assert_eq!(match_pattern("^Half", &catalogue()).unwrap(), vec![]);
}
