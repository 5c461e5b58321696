use sigyn::cli::{
    check_reset_confirmation, cli_action, exit_code_after, find_text, is_unsafe_env_name, keychain_delete_outcome,
    plan_run, project_list_line, reject_unsafe_env_names, reset_refusal, reset_report_lines, Cli, CliAction, Commands,
};
use sigyn::error::AppError;
use sigyn::model::{AppSnapshot, EntryRecord, ProjectRecord};

fn s(v: &str) -> String {
    v.to_string()
}

fn vars(names: &[&str]) -> Vec<(String, String)> {
    names.iter().map(|n| (n.to_string(), "v".to_string())).collect()
}

#[test]
fn restricted_names_are_recognised() {
    for n in ["PATH", " path ", "IFS", "env", "BASH_ENV", "GCONV_PATH", "JAVA_TOOL_OPTIONS", "NODE_OPTIONS", "PERL5LIB", "PERL5OPT", "PYTHONHOME", "PYTHONPATH", "RUBYLIB", "RUBYOPT", "LD_PRELOAD", "ld_library_path", "DYLD_INSERT_LIBRARIES"] {
        assert!(is_unsafe_env_name(n), "{n}");
    }
    for n in ["PATHS", "MY_PATH", "LD", "DYLD", "API_KEY", ""] {
        assert!(!is_unsafe_env_name(n), "{n}");
    }
}

#[test]
fn first_restricted_name_is_reported() {
    assert!(reject_unsafe_env_names(&vars(&["A", "B"])).is_ok());
    match reject_unsafe_env_names(&vars(&["A", "LD_X", "PATH"])) {
        Err(AppError::Validation(m)) => assert_eq!(m, "refusing to launch with restricted environment variable `LD_X`"),
        _ => panic!("expected a validation error"),
    }
}

#[test]
fn reset_needs_the_exact_phrase() {
    assert!(check_reset_confirmation(&Some(s("delete all data"))).is_ok());
    match check_reset_confirmation(&Some(s("delete all"))) {
        Err(AppError::Validation(m)) => assert_eq!(m, "incorrect confirmation phrase \u{2014} pass --confirm \"delete all data\""),
        _ => panic!("expected a validation error"),
    }
    match check_reset_confirmation(&None) {
        Err(AppError::Validation(m)) => assert_eq!(
            m,
            "reset-test-data is destructive; quit the app and rerun with --confirm \"delete all data\" to proceed"
        ),
        _ => panic!("expected a validation error"),
    }
}

fn project(id: &str, name: &str, base: &str, entries: usize) -> ProjectRecord {
    ProjectRecord {
        id: s(id),
        name: s(name),
        working_directory: None,
        supported_environments: vec![s(base)],
        active_base_environment: s(base),
        entry_overrides: vec![],
        entries: (0..entries)
            .map(|k| EntryRecord { id: format!("e{k}"), name: format!("E{k}"), category: None, description: None, values: vec![] })
            .collect(),
    }
}

#[test]
fn list_lines_mark_the_active_project() {
    let snap = AppSnapshot {
        locked: false,
        active_project_id: Some(s("b")),
        projects: vec![project("a", "Alpha", "dev", 1), project("b", "Beta", "prod", 12), project("c", "Gamma", "qa", 0)],
    };
    assert_eq!(project_list_line(&snap, 0), "  Alpha (dev, 1 entry)");
    assert_eq!(project_list_line(&snap, 1), "* Beta (prod, 12 entries)");
    assert_eq!(project_list_line(&snap, 2), "  Gamma (qa, 0 entries)");
}

#[test]
fn command_line_actions() {
    let cli = Cli { command: Some(Commands::List), project: None, cwd: None, command_args: vec![] };
    assert!(matches!(cli_action(cli), CliAction::List));
    let cli = Cli { command: Some(Commands::Preview), project: Some(s("web")), cwd: None, command_args: vec![] };
    assert!(matches!(cli_action(cli), CliAction::Preview { project: Some(p) } if p == "web"));
    let cli = Cli { command: None, project: None, cwd: None, command_args: vec![] };
    assert!(matches!(cli_action(cli), CliAction::Help));
    let cli = Cli { command: None, project: Some(s("web")), cwd: Some(s("/tmp")), command_args: vec![s("env")] };
    match cli_action(cli) {
        CliAction::Run { project, cwd, command } => {
            assert_eq!(project, Some(s("web")));
            assert_eq!(cwd, Some(s("/tmp")));
            assert_eq!(command, vec![s("env")]);
        },
        _ => panic!("expected run"),
    }
    let cli = Cli {
        command: Some(Commands::Run { cwd: None, command: vec![s("ls"), s("-l")] }),
        project: None,
        cwd: Some(s("/w")),
        command_args: vec![],
    };
    match cli_action(cli) {
        CliAction::Run { cwd, command, .. } => {
            assert_eq!(cwd, Some(s("/w")));
            assert_eq!(command, vec![s("ls"), s("-l")]);
        },
        _ => panic!("expected run"),
    }
    let cli = Cli {
        command: Some(Commands::Run { cwd: Some(s("/inner")), command: vec![s("ls")] }),
        project: None,
        cwd: Some(s("/w")),
        command_args: vec![],
    };
    assert!(matches!(cli_action(cli), CliAction::Run { cwd: Some(c), .. } if c == "/inner"));
    let cli = Cli { command: Some(Commands::ResetTestData { confirm: Some(s("x")) }), project: None, cwd: None, command_args: vec![] };
    assert!(matches!(cli_action(cli), CliAction::ResetTestData { confirm: Some(c) } if c == "x"));
}

#[test]
fn run_plan_splits_the_command() {
    let plan = plan_run(vec![s("npm"), s("run"), s("dev")], None, Some(s("/srv")), vars(&["PORT"])).ok().unwrap();
    assert_eq!(plan.program, "npm");
    assert_eq!(plan.args, vec![s("run"), s("dev")]);
    assert_eq!(plan.working_directory, Some(s("/srv")));
    assert_eq!(plan.env_vars, vars(&["PORT"]));
    let plan = plan_run(vec![s("ls")], Some(s("/here")), Some(s("/srv")), vec![]).ok().unwrap();
    assert_eq!(plan.working_directory, Some(s("/here")));
    assert!(plan.args.is_empty());
}

#[test]
fn run_plan_refusals() {
    match plan_run(vec![], None, None, vars(&["PATH"])) {
        Err(AppError::Validation(m)) => assert_eq!(m, "run requires a command after `--`"),
        _ => panic!("expected a validation error"),
    }
    match plan_run(vec![s("ls")], None, None, vars(&["OK", "NODE_OPTIONS"])) {
        Err(AppError::Validation(m)) => assert_eq!(m, "refusing to launch with restricted environment variable `NODE_OPTIONS`"),
        _ => panic!("expected a validation error"),
    }
}

#[test]
fn exit_codes_follow_the_child() {
    assert_eq!(exit_code_after(Some(0)), None);
    assert_eq!(exit_code_after(Some(3)), Some(3));
    assert_eq!(exit_code_after(Some(-1)), Some(-1));
    assert_eq!(exit_code_after(None), Some(1));
}

#[test]
fn text_search() {
    assert!(find_text("abc", ""));
    assert!(find_text("hello world", "o w"));
    assert!(!find_text("hello", "hello!"));
    assert!(!find_text("", "a"));
}

#[test]
fn keychain_delete_outcomes() {
    assert_eq!(keychain_delete_outcome(true, "anything").ok(), Some(true));
    assert_eq!(
        keychain_delete_outcome(false, "security: SecKeychainSearchCopyNext: The specified item could not be found in the keychain.\n").ok(),
        Some(false)
    );
    match keychain_delete_outcome(false, "  denied by user \n") {
        Err(AppError::Auth(m)) => assert_eq!(m, "denied by user"),
        _ => panic!("expected an auth error"),
    }
}

#[test]
fn reset_report() {
    assert_eq!(reset_report_lines(true, false), vec![s("sigyn test data cleared"), s("local app data: removed"), s("keychain entry: not found")]);
    assert_eq!(reset_report_lines(false, true), vec![s("sigyn test data cleared"), s("local app data: already empty"), s("keychain entry: removed")]);
}

#[test]
fn reset_is_refused_while_the_desktop_app_runs() {
    match reset_refusal(true) {
        Err(AppError::Validation(m)) => assert_eq!(m, "quit the desktop app before running reset-test-data"),
        _ => panic!("expected a validation error"),
    }
    assert!(reset_refusal(false).is_ok());
}
