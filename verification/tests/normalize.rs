use sigyn::error::AppError;
use sigyn::model::EntryValueInput;
use sigyn::normalize::{
    normalize_entry_name, normalize_entry_values, normalize_environment_name, normalize_optional_text,
    normalize_project_name, normalize_supported_environments, serialize_env_value,
};

fn validation_message(r: Result<String, AppError>) -> String {
    match r {
        Err(AppError::Validation(m)) => m,
        _ => panic!("expected a validation error"),
    }
}

fn value(environment: &str, present: bool, value: &str) -> EntryValueInput {
    EntryValueInput { environment: environment.to_string(), present, value: value.to_string() }
}

#[test]
fn project_names_are_trimmed() {
    assert_eq!(normalize_project_name("  My App ").ok(), Some("My App".to_string()));
}

#[test]
fn project_name_trims_unicode_whitespace() {
    assert_eq!(normalize_project_name("\u{3000}\tApp\u{A0}").ok(), Some("App".to_string()));
}

#[test]
fn blank_project_name_is_refused() {
    assert_eq!(validation_message(normalize_project_name(" \n ")), "project name cannot be empty");
}

#[test]
fn entry_names_become_identifiers() {
    assert_eq!(normalize_entry_name(" api-key.v2 ").ok(), Some("API_KEY_V2".to_string()));
}

#[test]
fn entry_name_loses_outer_underscores() {
    assert_eq!(normalize_entry_name("__db url__").ok(), Some("DB_URL".to_string()));
    assert_eq!(normalize_entry_name("-x-").ok(), Some("X".to_string()));
}

#[test]
fn entry_name_maps_non_ascii_to_underscore() {
    assert_eq!(normalize_entry_name("caf\u{e9} ok").ok(), Some("CAF__OK".to_string()));
}

#[test]
fn entry_name_without_letters_is_refused() {
    assert_eq!(validation_message(normalize_entry_name(" --- ")), "entry names must contain letters or numbers");
    assert_eq!(validation_message(normalize_entry_name("")), "entry names must contain letters or numbers");
}

#[test]
fn environment_labels_are_lowered() {
    assert_eq!(normalize_environment_name(" Prod EU ").ok(), Some("prod-eu".to_string()));
}

#[test]
fn environment_label_drops_other_characters() {
    assert_eq!(normalize_environment_name("Stage#2_b!").ok(), Some("stage2_b".to_string()));
}

#[test]
fn empty_environment_label_is_refused() {
    assert_eq!(validation_message(normalize_environment_name(" !! ")), "environment labels cannot be empty");
}

#[test]
fn supported_environments_keep_first_of_each() {
    let r = normalize_supported_environments(vec!["Dev".to_string(), "prod".to_string(), " dev ".to_string()]);
    assert_eq!(r.ok(), Some(vec!["dev".to_string(), "prod".to_string()]));
}

#[test]
fn supported_environments_refuse_empty_list_and_labels() {
    match normalize_supported_environments(vec![]) {
        Err(AppError::Validation(m)) => assert_eq!(m, "projects must define at least one environment"),
        _ => panic!("expected a validation error"),
    }
    match normalize_supported_environments(vec!["dev".to_string(), "***".to_string()]) {
        Err(AppError::Validation(m)) => assert_eq!(m, "environment labels cannot be empty"),
        _ => panic!("expected a validation error"),
    }
}

#[test]
fn entry_values_keep_last_present_value_by_environment() {
    let allowed = vec!["dev".to_string(), "prod".to_string(), "ci".to_string()];
    let r = normalize_entry_values(
        vec![value("PROD", true, "p1"), value("dev", true, "d1"), value("prod", true, "p2"), value("ci", true, "c"), value("ci", false, "")],
        &allowed,
    );
    assert_eq!(r.ok(), Some(vec![("dev".to_string(), "d1".to_string()), ("prod".to_string(), "p2".to_string())]));
}

#[test]
fn entry_values_refuse_unsupported_environment() {
    let allowed = vec!["dev".to_string()];
    match normalize_entry_values(vec![value("dev", true, "a"), value("Stage", true, "b")], &allowed) {
        Err(AppError::Validation(m)) => assert_eq!(m, "environment `stage` is not supported by this project"),
        _ => panic!("expected a validation error"),
    }
}

#[test]
fn optional_text_is_trimmed_or_dropped() {
    assert_eq!(normalize_optional_text(Some("  notes ".to_string())), Some("notes".to_string()));
    assert_eq!(normalize_optional_text(Some("   ".to_string())), None);
    assert_eq!(normalize_optional_text(None), None);
}

#[test]
fn serialized_values_are_quoted_when_needed() {
    assert_eq!(serialize_env_value(""), "\"\"");
    assert_eq!(serialize_env_value("abc-1.2/x:y@z_"), "abc-1.2/x:y@z_");
    assert_eq!(serialize_env_value("a b"), "\"a b\"");
    assert_eq!(serialize_env_value("a\"b\\c\nd\re"), "\"a\\\"b\\\\c\\nd\\re\"");
}

#[test]
fn normalizing_a_stored_form_gives_it_back() {
    let label = normalize_environment_name(" QA Team ").ok().unwrap();
    assert_eq!(normalize_environment_name(&label).ok(), Some(label.clone()));
    let name = normalize_entry_name("..my key..").ok().unwrap();
    assert_eq!(normalize_entry_name(&name).ok(), Some(name.clone()));
    let project = normalize_project_name("  P  ").ok().unwrap();
    assert_eq!(normalize_project_name(&project).ok(), Some(project.clone()));
}

#[test]
fn entry_names_use_identifier_characters() {
    let n = normalize_entry_name(" __héllo wörld 42__ ").ok().unwrap();
    assert_eq!(n, "H_LLO_W_RLD_42");
    assert!(n.chars().all(|c| c.is_ascii_uppercase() || c.is_ascii_digit() || c == '_'));
    assert!(!n.starts_with('_') && !n.ends_with('_'));
}

#[test]
fn serialized_values_have_no_line_breaks() {
    let v = "line1\nline2\r\n\"q\" \\";
    let out = serialize_env_value(v);
    assert!(!out.contains('\n') && !out.contains('\r'));
    assert_eq!(out, "\"line1\\nline2\\r\\n\\\"q\\\" \\\\\"");
}
