use traduora_update::config;
use traduora_update::layout::set_all_active;
use traduora_update::local::Translation as LocalTranslation;
use traduora_update::sort::check_distinct_keys;
use traduora_update::layout::{AppState, ModificationEntry};
use traduora_update::merge::{Modification, Translation};
use traduora_update::remote::TermId;
use traduora_update::updater::{collect_update_result, Error};

fn action(term: &str, translation: &str, modification: Modification) -> Translation {
    Translation { term: term.to_string(), translation: translation.to_string(), modification }
}

#[test]
fn build_groups_actions_by_kind() {
    let actions = vec![
        action("a", "1", Modification::Added),
        action("b", "2", Modification::Removed(TermId("r1".to_string()))),
        action("c", "3", Modification::Updated(TermId("u1".to_string()))),
        action("d", "4", Modification::Added),
    ];

    let state = AppState::build(actions);

    assert_eq!(state.added.len(), 2);
    assert_eq!(state.added[0].term, "a");
    assert_eq!(state.added[1].term, "d");
    assert!(state.added.iter().all(|e| e.active));
    assert_eq!(state.removed.len(), 1);
    assert_eq!(state.removed[0].term, "b");
    assert_eq!(state.removed[0].modification.0 .0, "r1");
    assert_eq!(state.updated.len(), 1);
    assert_eq!(state.updated[0].term, "c");
    assert_eq!(state.updated[0].modification.0 .0, "u1");
}

#[test]
fn extract_translations_keeps_only_selected_entries() {
    let actions = vec![
        action("a", "1", Modification::Added),
        action("b", "2", Modification::Removed(TermId("r1".to_string()))),
        action("c", "3", Modification::Updated(TermId("u1".to_string()))),
        action("d", "4", Modification::Added),
    ];
    let mut state = AppState::build(actions);
    state.added[0].active = false;

    let extracted = state.extract_translations();

    assert_eq!(extracted.len(), 3);
    assert_eq!(extracted[0].term, "d");
    assert_eq!(extracted[0].modification, Modification::Added);
    assert_eq!(extracted[1].term, "b");
    assert_eq!(extracted[1].modification, Modification::Removed(TermId("r1".to_string())));
    assert_eq!(extracted[2].term, "c");
    assert_eq!(extracted[2].modification, Modification::Updated(TermId("u1".to_string())));
}

#[test]
fn entry_constructors_start_selected() {
    let a = ModificationEntry::added("t".to_string(), "x".to_string());
    let r = ModificationEntry::removed("t".to_string(), "x".to_string(), TermId("1".to_string()));
    let u = ModificationEntry::updated("t".to_string(), "x".to_string(), TermId("2".to_string()));

    assert!(a.active && r.active && u.active);
    assert_eq!(r.modification.0 .0, "1");
    assert_eq!(u.modification.0 .0, "2");
}

#[test]
fn set_all_active_toggles_every_entry() {
    let entries = vec![
        ModificationEntry::added("a".to_string(), "1".to_string()),
        ModificationEntry::added("b".to_string(), "2".to_string()),
    ];

    let cleared = set_all_active(entries, false);
    assert!(cleared.iter().all(|e| !e.active));
    assert_eq!(cleared[0].term, "a");
    assert_eq!(cleared[1].term, "b");

    let selected = set_all_active(cleared, true);
    assert!(selected.iter().all(|e| e.active));
}

#[test]
fn distinct_keys_are_checked_before_the_engine_runs() {
    let distinct = vec![
        LocalTranslation::new("a".to_string(), "1".to_string()),
        LocalTranslation::new("b".to_string(), "1".to_string()),
    ];
    let duplicated = vec![
        LocalTranslation::new("a".to_string(), "1".to_string()),
        LocalTranslation::new("a".to_string(), "2".to_string()),
    ];

    assert!(check_distinct_keys(&distinct));
    assert!(!check_distinct_keys(&duplicated));
}

#[test]
fn update_run_without_failures_succeeds() {
    assert!(collect_update_result(Vec::new()).is_ok());
}

#[test]
fn update_run_reports_every_failure() {
    let failures = vec![
        ("term.a".to_string(), "text a".to_string(), "connection reset".to_string()),
        ("term.b".to_string(), "text b".to_string(), "not found".to_string()),
    ];

    let result = collect_update_result(failures.clone());

    match result {
        Err(Error::Update(reported)) => assert_eq!(reported, failures),
        _ => panic!("expected the failures to be reported together"),
    }
}

#[test]
fn client_creation_error_carries_its_reason() {
    let e = Error::ClientCreation("login failed".to_string());
    match e {
        Error::ClientCreation(reason) => assert_eq!(reason, "login failed"),
        Error::Update(_) => panic!("wrong variant"),
    }
}

#[test]
fn schema_example_values() {
    assert!(config::bool_true());
    assert_eq!(config::project_id(), "92047938-c050-4d9c-83f8-6b1d7fae6b01");
    assert_eq!(config::locale_en(), "en");
    assert_eq!(config::locale_de_de(), "de_DE");
    assert_eq!(config::locale_ru(), "ru");
    assert_eq!(config::revision_commit(), "9011cdcd095d156c6a7e34182fdcba144ab1789a");
    assert_eq!(config::revision_branch(), "main");
    assert_eq!(config::revision_tag(), "v2.7.41");
    assert_eq!(config::encoding_utf_8(), "utf-8");
    assert_eq!(config::encoding_utf_16(), "utf-16");
}

#[test]
fn login_config_holds_both_forms() {
    let password = config::LoginConfig::Password {
        mail: "user@example.com".to_string(),
        password: "secret".to_string(),
    };
    let client = config::LoginConfig::ClientCredentials {
        client_id: "id".to_string(),
        client_secret: "secret".to_string(),
    };
    match password {
        config::LoginConfig::Password { mail, .. } => assert_eq!(mail, "user@example.com"),
        config::LoginConfig::ClientCredentials { .. } => panic!("wrong variant"),
    }
    match client {
        config::LoginConfig::ClientCredentials { client_id, .. } => assert_eq!(client_id, "id"),
        config::LoginConfig::Password { .. } => panic!("wrong variant"),
    }
}
