use sigyn::error::AppError;
use sigyn::model::{
    AppSnapshot, CreateEntryInput, CreateProjectInput, EntryValueInput, ResetOverridesInput, SelectProjectInput,
    SetBaseEnvironmentInput, SetEntryOverrideInput, UpdateProjectInput,
};
use sigyn::preview::skipped_warning;
use sigyn::store::Store;

fn key() -> Vec<u8> {
    vec![9u8; 32]
}

fn value(environment: &str, v: &str) -> EntryValueInput {
    EntryValueInput { environment: environment.to_string(), present: true, value: v.to_string() }
}

fn setup() -> (Store, String, AppSnapshot) {
    let mut store = Store::new();
    let s = store
        .create_project(CreateProjectInput {
            name: "Web".to_string(),
            supported_environments: vec!["dev".to_string(), "prod".to_string()],
            working_directory: Some("/srv/web".to_string()),
        })
        .ok()
        .unwrap();
    let pid = s.projects[0].id.clone();
    for (name, values) in [
        ("port", vec![value("dev", "3000"), value("prod", "80")]),
        ("Greeting", vec![value("dev", "hello world")]),
        ("only_prod", vec![value("prod", "p")]),
    ] {
        store
            .create_entry(CreateEntryInput { project_id: pid.clone(), name: name.to_string(), category: None, description: None, values }, &key())
            .ok()
            .unwrap();
    }
    let s = store.load_snapshot();
    (store, pid, s)
}

fn entry_id(snapshot: &AppSnapshot, name: &str) -> String {
    snapshot.projects[0].entries.iter().find(|e| e.name == name).unwrap().id.clone()
}

#[test]
fn preview_uses_base_environment_and_skips_missing_values() {
    let (store, pid, _) = setup();
    let p = store.preview_project(&pid, &key()).ok().unwrap();
    assert_eq!(p.project_id, pid);
    assert_eq!(p.project_name, "Web");
    assert_eq!(p.preset_label, "all_dev");
    assert_eq!(p.serialized, "GREETING=\"hello world\"\nPORT=3000");
    let names: Vec<String> = p.items.iter().map(|i| i.entry_name.clone()).collect();
    assert_eq!(names, vec!["GREETING".to_string(), "PORT".to_string()]);
    assert!(p.items.iter().all(|i| i.source_environment == "dev"));
}

#[test]
fn override_changes_source_and_preset() {
    let (mut store, pid, s) = setup();
    let port = entry_id(&s, "PORT");
    store
        .set_entry_override(SetEntryOverrideInput { project_id: pid.clone(), entry_id: port.clone(), environment: Some("prod".to_string()) })
        .ok()
        .unwrap();
    let p = store.preview_project(&pid, &key()).ok().unwrap();
    assert_eq!(p.preset_label, "custom");
    assert_eq!(p.serialized, "GREETING=\"hello world\"\nPORT=80");
    let item = p.items.iter().find(|i| i.entry_id == port).unwrap();
    assert_eq!(item.source_environment, "prod");
}

#[test]
fn preview_of_unknown_project_is_not_found() {
    let (store, _, _) = setup();
    match store.preview_project("nope", &key()) {
        Err(AppError::NotFound(m)) => assert_eq!(m, "project not found"),
        _ => panic!("expected not found"),
    }
}

#[test]
fn preview_with_wrong_key_fails() {
    let (store, pid, _) = setup();
    match store.preview_project(&pid, &[3u8; 32]) {
        Err(AppError::Crypto(m)) => assert_eq!(m, "failed to decrypt value: aead::Error"),
        _ => panic!("expected a crypto error"),
    }
}

#[test]
fn preview_by_name_ignores_case() {
    let (store, _, _) = setup();
    let (wd, serialized, vars, skipped) = store.preview_project_by_name("wEB", &key()).ok().unwrap();
    assert_eq!(skipped, vec![("ONLY_PROD".to_string(), "dev".to_string())]);
    assert_eq!(wd, Some("/srv/web".to_string()));
    assert_eq!(serialized, "GREETING=\"hello world\"\nPORT=3000");
    assert_eq!(vars, vec![("GREETING".to_string(), "hello world".to_string()), ("PORT".to_string(), "3000".to_string())]);
    match store.preview_project_by_name("mobile", &key()) {
        Err(AppError::NotFound(m)) => assert_eq!(m, "project `mobile` not found"),
        _ => panic!("expected not found"),
    }
}

#[test]
fn preview_of_active_project() {
    let (mut store, pid, _) = setup();
    let (name, wd, serialized, vars, skipped) = store.preview_active_project(&key()).ok().unwrap();
    assert_eq!(skipped.len(), 1);
    assert_eq!(name, "Web");
    assert_eq!(wd, Some("/srv/web".to_string()));
    assert_eq!(serialized, "GREETING=\"hello world\"\nPORT=3000");
    assert_eq!(vars.len(), 2);
    store
        .update_project(UpdateProjectInput { project_id: pid.clone(), name: "Web".to_string(), supported_environments: vec!["dev".to_string(), "prod".to_string()], working_directory: None })
        .ok()
        .unwrap();
    store.select_project(SelectProjectInput { project_id: pid }).ok().unwrap();
    let (_, wd, _, _, _) = store.preview_active_project(&key()).ok().unwrap();
    assert_eq!(wd, None);
}

#[test]
fn no_active_project_is_reported() {
    let store = Store::new();
    match store.preview_active_project(&key()) {
        Err(AppError::Validation(m)) => {
            assert_eq!(m, "no active project selected \u{2014} select a project in sigyn or pass --project")
        },
        _ => panic!("expected a validation error"),
    }
}

#[test]
fn project_without_entries_previews_empty() {
    let mut store = Store::new();
    let s = store
        .create_project(CreateProjectInput { name: "E".to_string(), supported_environments: vec!["ci".to_string()], working_directory: None })
        .ok()
        .unwrap();
    let p = store.preview_project(&s.projects[0].id, &key()).ok().unwrap();
    assert_eq!(p.serialized, "");
    assert!(p.items.is_empty());
    assert_eq!(p.preset_label, "all_ci");
}

#[test]
fn entry_values_of_unknown_entry_are_not_found() {
    let (store, pid, _) = setup();
    match store.get_entry_values(&pid, "nope", &key()) {
        Err(AppError::NotFound(m)) => assert_eq!(m, "entry not found"),
        _ => panic!("expected not found"),
    }
}

#[test]
fn new_base_environment_resets_preset() {
    let (mut store, pid, s) = setup();
    let port = entry_id(&s, "PORT");
    store
        .set_entry_override(SetEntryOverrideInput { project_id: pid.clone(), entry_id: port, environment: Some("prod".to_string()) })
        .ok()
        .unwrap();
    store.set_base_environment(SetBaseEnvironmentInput { project_id: pid.clone(), environment: "prod".to_string() }).ok().unwrap();
    let p = store.preview_project(&pid, &key()).ok().unwrap();
    assert_eq!(p.preset_label, "all_prod");
    assert_eq!(p.serialized, "ONLY_PROD=p\nPORT=80");
}

#[test]
fn reset_overrides_restores_base_preset() {
    let (mut store, pid, s) = setup();
    let greeting = entry_id(&s, "GREETING");
    store
        .set_entry_override(SetEntryOverrideInput { project_id: pid.clone(), entry_id: greeting, environment: Some("prod".to_string()) })
        .ok()
        .unwrap();
    let p = store.preview_project(&pid, &key()).ok().unwrap();
    assert_eq!(p.preset_label, "custom");
    assert_eq!(p.serialized, "PORT=3000");
    store.reset_overrides(ResetOverridesInput { project_id: pid.clone() }).ok().unwrap();
    let p = store.preview_project(&pid, &key()).ok().unwrap();
    assert_eq!(p.preset_label, "all_dev");
    assert_eq!(p.serialized, "GREETING=\"hello world\"\nPORT=3000");
}

#[test]
fn skipped_entries_are_warned_about() {
    assert_eq!(skipped_warning("ONLY_PROD", "dev"), "warning: `ONLY_PROD` has no value for `dev`, skipping");
}
