use sigyn::error::AppError;
use sigyn::model::{
    AppSnapshot, CreateEntryInput, CreateProjectInput, DeleteEntryInput, DeleteProjectInput, EntryValueInput,
    ImportEntriesInput, ImportEntryItem, RenameProjectInput, ResetOverridesInput, SelectProjectInput,
    SetBaseEnvironmentInput, SetEntryOverrideInput, UpdateEntryInput, UpdateProjectInput,
};
use sigyn::store::Store;

fn key() -> Vec<u8> {
    vec![42u8; 32]
}

fn strings(v: &[&str]) -> Vec<String> {
    v.iter().map(|s| s.to_string()).collect()
}

fn create(store: &mut Store, name: &str, envs: &[&str]) -> AppSnapshot {
    store
        .create_project(CreateProjectInput { name: name.to_string(), supported_environments: strings(envs), working_directory: None })
        .ok()
        .unwrap()
}

fn id_of(snapshot: &AppSnapshot, name: &str) -> String {
    snapshot.projects.iter().find(|p| p.name == name).unwrap().id.clone()
}

fn names(snapshot: &AppSnapshot) -> Vec<String> {
    snapshot.projects.iter().map(|p| p.name.clone()).collect()
}

fn value(environment: &str, v: &str) -> EntryValueInput {
    EntryValueInput { environment: environment.to_string(), present: true, value: v.to_string() }
}

fn add_entry(store: &mut Store, pid: &str, name: &str, values: Vec<EntryValueInput>) -> AppSnapshot {
    store
        .create_entry(CreateEntryInput { project_id: pid.to_string(), name: name.to_string(), category: None, description: None, values }, &key())
        .ok()
        .unwrap()
}

fn entry_id(snapshot: &AppSnapshot, pid: &str, name: &str) -> String {
    let p = snapshot.projects.iter().find(|p| p.id == pid).unwrap();
    p.entries.iter().find(|e| e.name == name).unwrap().id.clone()
}

#[test]
fn empty_store_has_no_project() {
    let store = Store::new();
    let s = store.load_snapshot();
    assert!(!s.locked);
    assert_eq!(s.active_project_id, None);
    assert!(s.projects.is_empty());
    assert!(!store.has_encrypted_entries());
}

#[test]
fn created_project_is_normalised_and_active() {
    let mut store = Store::new();
    let s = store
        .create_project(CreateProjectInput {
            name: "  Alpha ".to_string(),
            supported_environments: strings(&["Dev", "prod", " dev "]),
            working_directory: Some("  /tmp/alpha ".to_string()),
        })
        .ok()
        .unwrap();
    assert_eq!(s.projects.len(), 1);
    let p = &s.projects[0];
    assert_eq!(p.name, "Alpha");
    assert_eq!(p.supported_environments, strings(&["dev", "prod"]));
    assert_eq!(p.active_base_environment, "dev");
    assert_eq!(p.working_directory, Some("/tmp/alpha".to_string()));
    assert_eq!(p.id.len(), 36);
    assert_eq!(s.active_project_id, Some(p.id.clone()));
}

#[test]
fn projects_are_listed_by_name_ignoring_case() {
    let mut store = Store::new();
    create(&mut store, "beta", &["dev"]);
    create(&mut store, "Gamma", &["dev"]);
    let s = create(&mut store, "alpha", &["dev"]);
    assert_eq!(names(&s), strings(&["alpha", "beta", "Gamma"]));
    assert_eq!(s.active_project_id, Some(id_of(&s, "alpha")));
}

#[test]
fn duplicate_project_name_is_refused_and_store_unchanged() {
    let mut store = Store::new();
    create(&mut store, "Alpha", &["dev"]);
    let r = store.create_project(CreateProjectInput { name: " Alpha".to_string(), supported_environments: strings(&["dev"]), working_directory: None });
    match r {
        Err(AppError::Sql(m)) => assert_eq!(m, "UNIQUE constraint failed: projects.name"),
        _ => panic!("expected a database error"),
    }
    assert_eq!(store.load_snapshot().projects.len(), 1);
}

#[test]
fn invalid_project_inputs_are_refused() {
    let mut store = Store::new();
    let cases = [
        ("  ", vec!["dev"], "project name cannot be empty"),
        ("P", vec![], "projects must define at least one environment"),
        ("P", vec!["dev", "  "], "environment labels cannot be empty"),
    ];
    for (name, envs, message) in cases {
        let r = store.create_project(CreateProjectInput { name: name.to_string(), supported_environments: strings(&envs), working_directory: None });
        match r {
            Err(AppError::Validation(m)) => assert_eq!(m, message),
            _ => panic!("expected a validation error"),
        }
    }
    assert!(store.load_snapshot().projects.is_empty());
}

#[test]
fn select_rename_and_update_projects() {
    let mut store = Store::new();
    let s = create(&mut store, "One", &["dev", "prod"]);
    let one = id_of(&s, "One");
    create(&mut store, "Two", &["dev"]);
    let s = store.select_project(SelectProjectInput { project_id: one.clone() }).ok().unwrap();
    assert_eq!(s.active_project_id, Some(one.clone()));
    match store.select_project(SelectProjectInput { project_id: "missing".to_string() }) {
        Err(AppError::NotFound(m)) => assert_eq!(m, "project not found"),
        _ => panic!("expected not found"),
    }
    let s = store.rename_project(RenameProjectInput { project_id: one.clone(), name: " Zed ".to_string() }).ok().unwrap();
    assert_eq!(names(&s), strings(&["Two", "Zed"]));
    match store.rename_project(RenameProjectInput { project_id: one.clone(), name: "Two".to_string() }) {
        Err(AppError::Sql(m)) => assert_eq!(m, "UNIQUE constraint failed: projects.name"),
        _ => panic!("expected a database error"),
    }
    let s = store
        .update_project(UpdateProjectInput {
            project_id: one.clone(),
            name: "Zed".to_string(),
            supported_environments: strings(&["prod", "dev", "QA"]),
            working_directory: Some(" /src ".to_string()),
        })
        .ok()
        .unwrap();
    let p = s.projects.iter().find(|p| p.id == one).unwrap();
    assert_eq!(p.supported_environments, strings(&["prod", "dev", "qa"]));
    assert_eq!(p.active_base_environment, "dev");
    assert_eq!(p.working_directory, Some("/src".to_string()));
    match store.update_project(UpdateProjectInput {
        project_id: one.clone(),
        name: "Zed".to_string(),
        supported_environments: strings(&["dev", "qa"]),
        working_directory: None,
    }) {
        Err(AppError::Validation(m)) => assert_eq!(m, "removing supported environment `prod` is not supported yet"),
        _ => panic!("expected a validation error"),
    }
}

#[test]
fn base_environment_must_be_supported() {
    let mut store = Store::new();
    let s = create(&mut store, "P", &["dev", "prod"]);
    let pid = id_of(&s, "P");
    let s = store.set_base_environment(SetBaseEnvironmentInput { project_id: pid.clone(), environment: " PROD ".to_string() }).ok().unwrap();
    assert_eq!(s.projects[0].active_base_environment, "prod");
    match store.set_base_environment(SetBaseEnvironmentInput { project_id: pid.clone(), environment: "stage".to_string() }) {
        Err(AppError::Validation(m)) => assert_eq!(m, "environment `stage` is not supported by this project"),
        _ => panic!("expected a validation error"),
    }
    match store.set_base_environment(SetBaseEnvironmentInput { project_id: "nope".to_string(), environment: "dev".to_string() }) {
        Err(AppError::NotFound(m)) => assert_eq!(m, "project not found"),
        _ => panic!("expected not found"),
    }
}

#[test]
fn entries_are_created_and_read_back() {
    let mut store = Store::new();
    let s = create(&mut store, "P", &["dev", "prod"]);
    let pid = id_of(&s, "P");
    let s = add_entry(&mut store, &pid, " api url ", vec![value("PROD", "https://p"), value("dev", "http://d")]);
    let e = &s.projects[0].entries[0];
    assert_eq!(e.name, "API_URL");
    let envs: Vec<String> = e.values.iter().map(|v| v.environment.clone()).collect();
    assert_eq!(envs, strings(&["dev", "prod"]));
    assert!(store.has_encrypted_entries());
    let vals = store.get_entry_values(&pid, &e.id, &key()).ok().unwrap();
    assert_eq!(vals.entry_id, e.id);
    let pairs: Vec<(String, String)> = vals.values.iter().map(|v| (v.environment.clone(), v.value.clone())).collect();
    assert_eq!(pairs, vec![("dev".to_string(), "http://d".to_string()), ("prod".to_string(), "https://p".to_string())]);
}

#[test]
fn entries_are_listed_by_name_ignoring_case() {
    let mut store = Store::new();
    let s = create(&mut store, "P", &["dev"]);
    let pid = id_of(&s, "P");
    add_entry(&mut store, &pid, "zeta", vec![]);
    add_entry(&mut store, &pid, "Alpha", vec![]);
    let s = add_entry(&mut store, &pid, "mid", vec![]);
    let got: Vec<String> = s.projects[0].entries.iter().map(|e| e.name.clone()).collect();
    assert_eq!(got, strings(&["ALPHA", "MID", "ZETA"]));
}

#[test]
fn entry_errors_are_reported() {
    let mut store = Store::new();
    let s = create(&mut store, "P", &["dev"]);
    let pid = id_of(&s, "P");
    add_entry(&mut store, &pid, "TOKEN", vec![]);
    let dup = store.create_entry(CreateEntryInput { project_id: pid.clone(), name: "token".to_string(), category: None, description: None, values: vec![] }, &key());
    match dup {
        Err(AppError::Sql(m)) => assert_eq!(m, "UNIQUE constraint failed: entries.project_id, entries.name"),
        _ => panic!("expected a database error"),
    }
    let bad_env = store.create_entry(CreateEntryInput { project_id: pid.clone(), name: "X".to_string(), category: None, description: None, values: vec![value("prod", "v")] }, &key());
    match bad_env {
        Err(AppError::Validation(m)) => assert_eq!(m, "environment `prod` is not supported by this project"),
        _ => panic!("expected a validation error"),
    }
    let bad_key = store.create_entry(CreateEntryInput { project_id: pid.clone(), name: "X".to_string(), category: None, description: None, values: vec![value("dev", "v")] }, &[1u8; 8]);
    match bad_key {
        Err(AppError::Crypto(m)) => assert_eq!(m, "failed to initialize cipher: Invalid Length"),
        _ => panic!("expected a crypto error"),
    }
    let no_project = store.create_entry(CreateEntryInput { project_id: "zz".to_string(), name: "X".to_string(), category: None, description: None, values: vec![] }, &key());
    match no_project {
        Err(AppError::NotFound(m)) => assert_eq!(m, "project not found"),
        _ => panic!("expected not found"),
    }
    assert_eq!(store.load_snapshot().projects[0].entries.len(), 1);
}

#[test]
fn update_entry_replaces_values_and_checks_project() {
    let mut store = Store::new();
    let s = create(&mut store, "P", &["dev", "prod"]);
    let pid = id_of(&s, "P");
    let s = create(&mut store, "Q", &["dev"]);
    let qid = id_of(&s, "Q");
    let s = add_entry(&mut store, &pid, "KEY", vec![value("dev", "1"), value("prod", "2")]);
    let eid = entry_id(&s, &pid, "KEY");
    let s = store
        .update_entry(
            UpdateEntryInput {
                project_id: pid.clone(),
                entry_id: eid.clone(),
                name: "key two".to_string(),
                category: Some(" infra ".to_string()),
                description: Some("   ".to_string()),
                values: vec![value("prod", "3")],
            },
            &key(),
        )
        .ok()
        .unwrap();
    let e = s.projects.iter().find(|p| p.id == pid).unwrap().entries.iter().find(|e| e.id == eid).unwrap();
    assert_eq!(e.name, "KEY_TWO");
    assert_eq!(e.category, Some("infra".to_string()));
    assert_eq!(e.description, None);
    let vals = store.get_entry_values(&pid, &eid, &key()).ok().unwrap();
    assert_eq!(vals.values.len(), 1);
    assert_eq!(vals.values[0].environment, "prod");
    assert_eq!(vals.values[0].value, "3");
    let wrong = store.update_entry(
        UpdateEntryInput { project_id: qid.clone(), entry_id: eid.clone(), name: "K".to_string(), category: None, description: None, values: vec![] },
        &key(),
    );
    match wrong {
        Err(AppError::Validation(m)) => assert_eq!(m, "entry does not belong to the selected project"),
        _ => panic!("expected a validation error"),
    }
    let missing = store.update_entry(
        UpdateEntryInput { project_id: pid.clone(), entry_id: "none".to_string(), name: "K".to_string(), category: None, description: None, values: vec![] },
        &key(),
    );
    match missing {
        Err(AppError::NotFound(m)) => assert_eq!(m, "entry not found"),
        _ => panic!("expected not found"),
    }
}

#[test]
fn overrides_are_set_cleared_and_reset() {
    let mut store = Store::new();
    let s = create(&mut store, "P", &["dev", "prod"]);
    let pid = id_of(&s, "P");
    let s = add_entry(&mut store, &pid, "A", vec![value("dev", "a-dev"), value("prod", "a-prod")]);
    let eid = entry_id(&s, &pid, "A");
    let s = store.set_entry_override(SetEntryOverrideInput { project_id: pid.clone(), entry_id: eid.clone(), environment: Some("Prod".to_string()) }).ok().unwrap();
    assert_eq!(s.projects[0].entry_overrides, vec![(eid.clone(), "prod".to_string())]);
    let s = store.set_entry_override(SetEntryOverrideInput { project_id: pid.clone(), entry_id: eid.clone(), environment: Some("dev".to_string()) }).ok().unwrap();
    assert!(s.projects[0].entry_overrides.is_empty());
    store.set_entry_override(SetEntryOverrideInput { project_id: pid.clone(), entry_id: eid.clone(), environment: Some("prod".to_string()) }).ok().unwrap();
    let s = store.set_entry_override(SetEntryOverrideInput { project_id: pid.clone(), entry_id: eid.clone(), environment: None }).ok().unwrap();
    assert!(s.projects[0].entry_overrides.is_empty());
    store.set_entry_override(SetEntryOverrideInput { project_id: pid.clone(), entry_id: eid.clone(), environment: Some("prod".to_string()) }).ok().unwrap();
    let s = store.reset_overrides(ResetOverridesInput { project_id: pid.clone() }).ok().unwrap();
    assert!(s.projects[0].entry_overrides.is_empty());
    store.set_entry_override(SetEntryOverrideInput { project_id: pid.clone(), entry_id: eid.clone(), environment: Some("prod".to_string()) }).ok().unwrap();
    let s = store.set_base_environment(SetBaseEnvironmentInput { project_id: pid.clone(), environment: "prod".to_string() }).ok().unwrap();
    assert!(s.projects[0].entry_overrides.is_empty());
    match store.set_entry_override(SetEntryOverrideInput { project_id: pid.clone(), entry_id: "none".to_string(), environment: None }) {
        Err(AppError::NotFound(m)) => assert_eq!(m, "entry not found"),
        _ => panic!("expected not found"),
    }
    match store.set_entry_override(SetEntryOverrideInput { project_id: pid.clone(), entry_id: eid.clone(), environment: Some("qa".to_string()) }) {
        Err(AppError::Validation(m)) => assert_eq!(m, "environment `qa` is not supported by this project"),
        _ => panic!("expected a validation error"),
    }
}

#[test]
fn deleting_entries_and_projects() {
    let mut store = Store::new();
    let s = create(&mut store, "b-proj", &["dev"]);
    let b = id_of(&s, "b-proj");
    let s = create(&mut store, "A-proj", &["dev"]);
    let a = id_of(&s, "A-proj");
    let s = add_entry(&mut store, &a, "X", vec![value("dev", "1")]);
    let x = entry_id(&s, &a, "X");
    match store.delete_entry(DeleteEntryInput { project_id: b.clone(), entry_id: x.clone() }) {
        Err(AppError::NotFound(m)) => assert_eq!(m, "entry not found"),
        _ => panic!("expected not found"),
    }
    let s = store.delete_entry(DeleteEntryInput { project_id: a.clone(), entry_id: x.clone() }).ok().unwrap();
    assert!(s.projects.iter().find(|p| p.id == a).unwrap().entries.is_empty());
    assert!(!store.has_encrypted_entries());
    add_entry(&mut store, &a, "Y", vec![value("dev", "1")]);
    let s = create(&mut store, "c-proj", &["dev"]);
    assert_eq!(s.active_project_id, Some(id_of(&s, "c-proj")));
    let c = id_of(&s, "c-proj");
    let s = store.delete_project(DeleteProjectInput { project_id: c.clone() }).ok().unwrap();
    assert_eq!(s.active_project_id, Some(a.clone()));
    let s = store.delete_project(DeleteProjectInput { project_id: a.clone() }).ok().unwrap();
    assert_eq!(names(&s), strings(&["b-proj"]));
    assert_eq!(s.active_project_id, Some(b.clone()));
    assert!(!store.has_encrypted_entries());
    match store.delete_project(DeleteProjectInput { project_id: a.clone() }) {
        Err(AppError::NotFound(m)) => assert_eq!(m, "project not found"),
        _ => panic!("expected not found"),
    }
    let s = store.delete_project(DeleteProjectInput { project_id: b.clone() }).ok().unwrap();
    assert!(s.projects.is_empty());
    assert_eq!(s.active_project_id, None);
}

#[test]
fn import_creates_and_updates_entries() {
    let mut store = Store::new();
    let s = create(&mut store, "P", &["dev", "prod"]);
    let pid = id_of(&s, "P");
    add_entry(&mut store, &pid, "EXISTING", vec![value("dev", "old")]);
    let items = vec![
        ImportEntryItem { name: "existing".to_string(), value: "new".to_string() },
        ImportEntryItem { name: "fresh key".to_string(), value: "f".to_string() },
        ImportEntryItem { name: "***".to_string(), value: "skipped".to_string() },
        ImportEntryItem { name: "FRESH_KEY".to_string(), value: "f2".to_string() },
    ];
    let r = store.import_entries(ImportEntriesInput { project_id: pid.clone(), environment: "Dev".to_string(), entries: items }, &key()).ok().unwrap();
    assert_eq!(r.created, 1);
    assert_eq!(r.updated, 2);
    let got: Vec<String> = r.snapshot.projects[0].entries.iter().map(|e| e.name.clone()).collect();
    assert_eq!(got, strings(&["EXISTING", "FRESH_KEY"]));
    let fresh = entry_id(&r.snapshot, &pid, "FRESH_KEY");
    let vals = store.get_entry_values(&pid, &fresh, &key()).ok().unwrap();
    assert_eq!(vals.values[0].value, "f2");
    let existing = entry_id(&r.snapshot, &pid, "EXISTING");
    let vals = store.get_entry_values(&pid, &existing, &key()).ok().unwrap();
    assert_eq!(vals.values[0].value, "new");
    match store.import_entries(ImportEntriesInput { project_id: pid.clone(), environment: "qa".to_string(), entries: vec![] }, &key()) {
        Err(AppError::Validation(m)) => assert_eq!(m, "environment `qa` is not supported by this project"),
        _ => panic!("expected a validation error"),
    }
    match store.import_entries(ImportEntriesInput { project_id: "none".to_string(), environment: "dev".to_string(), entries: vec![] }, &key()) {
        Err(AppError::NotFound(m)) => assert_eq!(m, "project not found"),
        _ => panic!("expected not found"),
    }
}

#[test]
fn locked_snapshot_hides_entries() {
    let mut store = Store::new();
    let s = create(&mut store, "P", &["dev"]);
    let pid = id_of(&s, "P");
    add_entry(&mut store, &pid, "A", vec![]);
    let s = store.load_locked_snapshot();
    assert!(s.locked);
    assert_eq!(s.projects.len(), 1);
    assert!(s.projects[0].entries.is_empty());
    assert_eq!(s.active_project_id, Some(pid));
    let l = AppSnapshot::locked();
    assert!(l.locked && l.projects.is_empty() && l.active_project_id.is_none());
}

#[test]
fn import_with_given_ids_uses_them_in_order() {
    let mut store = Store::new();
    let s = create(&mut store, "P", &["dev"]);
    let pid = id_of(&s, "P");
    let input = ImportEntriesInput {
        project_id: pid.clone(),
        environment: "dev".to_string(),
        entries: vec![
            ImportEntryItem { name: "a".to_string(), value: "1".to_string() },
            ImportEntryItem { name: "b".to_string(), value: "2".to_string() },
        ],
    };
    let ids = vec!["id-one".to_string(), "id-two".to_string()];
    assert_eq!(store.import_entries_with_ids(&input, &key(), &ids).ok(), Some((2, 0)));
    let s = store.load_snapshot();
    assert_eq!(entry_id(&s, &pid, "A"), "id-one");
    assert_eq!(entry_id(&s, &pid, "B"), "id-two");
}

#[test]
fn import_with_a_reused_id_fails_and_changes_nothing() {
    let mut store = Store::new();
    let s = create(&mut store, "P", &["dev"]);
    let pid = id_of(&s, "P");
    let input = ImportEntriesInput {
        project_id: pid.clone(),
        environment: "dev".to_string(),
        entries: vec![
            ImportEntryItem { name: "a".to_string(), value: "1".to_string() },
            ImportEntryItem { name: "b".to_string(), value: "2".to_string() },
        ],
    };
    let ids = vec!["same".to_string(), "same".to_string()];
    match store.import_entries_with_ids(&input, &key(), &ids) {
        Err(AppError::Sql(m)) => assert_eq!(m, "UNIQUE constraint failed: entries.id"),
        _ => panic!("expected a database error"),
    }
    assert!(store.load_snapshot().projects[0].entries.is_empty());
}
