use sigyn::error::AppError;
use sigyn::model::{AppSnapshot, ProjectRecord};
use sigyn::tray::{
    active_project, base_environment_choice, menu_item_id, menu_item_label, mixed_label, reset_overrides_target, tray_action, tray_menu,
    tray_title, FixedItem, MenuLine, TrayAction, TrayMenu,
};

fn s(v: &str) -> String {
    v.to_string()
}

fn project(id: &str, name: &str, envs: &[&str], base: &str, overrides: usize) -> ProjectRecord {
    ProjectRecord {
        id: s(id),
        name: s(name),
        working_directory: None,
        supported_environments: envs.iter().map(|e| s(e)).collect(),
        active_base_environment: s(base),
        entry_overrides: (0..overrides).map(|k| (format!("e{k}"), s("prod"))).collect(),
        entries: vec![],
    }
}

fn snap(locked: bool, active: Option<&str>, projects: Vec<ProjectRecord>) -> AppSnapshot {
    AppSnapshot { locked, active_project_id: active.map(s), projects }
}

#[test]
fn active_project_falls_back_to_first() {
    let ps = || vec![project("a", "A", &["dev"], "dev", 0), project("b", "B", &["dev"], "dev", 0)];
    assert_eq!(active_project(&snap(false, Some("b"), ps())), Some(1));
    assert_eq!(active_project(&snap(false, Some("zz"), ps())), Some(0));
    assert_eq!(active_project(&snap(false, None, ps())), Some(0));
    assert_eq!(active_project(&snap(false, None, vec![])), None);
}

#[test]
fn titles() {
    assert_eq!(tray_title(&snap(false, None, vec![])), "[sigyn]");
    assert_eq!(tray_title(&snap(true, None, vec![])), "\u{1F512} [sigyn]");
    assert_eq!(tray_title(&snap(false, Some("a"), vec![project("a", "Web", &["dev"], "dev", 0)])), "[Web | dev]");
    assert_eq!(tray_title(&snap(true, Some("a"), vec![project("a", "Web", &["dev", "prod"], "prod", 3)])), "\u{1F512} [Web | prod +3]");
}

#[test]
fn mixed_labels_count_overrides() {
    assert_eq!(mixed_label(1), "Mixed \u{2014} 1 override");
    assert_eq!(mixed_label(2), "Mixed \u{2014} 2 overrides");
    assert_eq!(mixed_label(10), "Mixed \u{2014} 10 overrides");
}

#[derive(Debug, PartialEq)]
enum Line {
    Item(String, String, bool),
    Sub(String, String, Vec<(String, String, bool)>),
    Sep,
}

fn lines(m: &TrayMenu) -> Vec<Line> {
    m.lines
        .iter()
        .map(|l| match l {
            MenuLine::Item { id, label, enabled } => Line::Item(id.clone(), label.clone(), *enabled),
            MenuLine::Submenu { id, label, items } => {
                Line::Sub(id.clone(), label.clone(), items.iter().map(|c| (c.id.clone(), c.label.clone(), c.checked)).collect())
            },
            MenuLine::Separator => Line::Sep,
        })
        .collect()
}

fn item(id: &str, label: &str, enabled: bool) -> Line {
    Line::Item(s(id), s(label), enabled)
}

#[test]
fn locked_menu_offers_unlock() {
    let m = tray_menu(&snap(true, Some("a"), vec![project("a", "Web", &["dev"], "dev", 1)]));
    assert_eq!(lines(&m), vec![item("unlock", "Unlock", true), Line::Sep, item("open", "Open sigyn", true), item("quit", "Quit", true)]);
}

#[test]
fn unlocked_menu_lists_projects_and_environments() {
    let m = tray_menu(&snap(false, Some("b"), vec![project("a", "A", &["dev"], "dev", 0), project("b", "B", &["dev", "prod"], "prod", 2)]));
    assert_eq!(
        lines(&m),
        vec![
            Line::Sub(s("projects"), s("Projects"), vec![(s("project:a"), s("A"), false), (s("project:b"), s("B"), true)]),
            Line::Sub(s("environment"), s("Environment"), vec![(s("environment:dev"), s("dev"), false), (s("environment:prod"), s("prod"), true)]),
            item("mixed-label", "Mixed \u{2014} 2 overrides", false),
            item("reset-overrides", "Reset Overrides", true),
            Line::Sep,
            item("open", "Open sigyn", true),
            item("lock", "Lock", true),
            item("quit", "Quit", true),
        ]
    );
}

#[test]
fn menu_without_overrides_has_no_mixed_label() {
    let m = tray_menu(&snap(false, Some("a"), vec![project("a", "A", &["dev"], "dev", 0)]));
    assert_eq!(lines(&m).len(), 6);
    assert_eq!(lines(&m)[2], Line::Sep);
}

#[test]
fn menu_without_projects() {
    let m = tray_menu(&snap(false, None, vec![]));
    assert_eq!(
        lines(&m),
        vec![item("no-projects", "No projects configured", false), Line::Sep, item("open", "Open sigyn", true), item("lock", "Lock", true), item("quit", "Quit", true)]
    );
}

#[test]
fn menu_actions() {
    assert!(matches!(tray_action("open"), TrayAction::Open));
    assert!(matches!(tray_action("quit"), TrayAction::Quit));
    assert!(matches!(tray_action("lock"), TrayAction::Lock));
    assert!(matches!(tray_action("unlock"), TrayAction::Unlock));
    assert!(matches!(tray_action("reset-overrides"), TrayAction::ResetOverrides));
    assert!(matches!(tray_action("environment:prod"), TrayAction::Environment(e) if e == "prod"));
    assert!(matches!(tray_action("project:1234"), TrayAction::Project(p) if p == "1234"));
    assert!(matches!(tray_action("project:"), TrayAction::Project(p) if p.is_empty()));
    assert!(matches!(tray_action("mixed-label"), TrayAction::Ignore));
    assert!(matches!(tray_action("Open"), TrayAction::Ignore));
}

#[test]
fn environment_choice_skips_current_base() {
    let sn = snap(false, Some("a"), vec![project("a", "A", &["dev", "prod"], "dev", 0)]);
    assert_eq!(base_environment_choice(&sn, "dev").ok(), Some(None));
    assert_eq!(base_environment_choice(&sn, "prod").ok(), Some(Some(s("a"))));
    match base_environment_choice(&snap(false, None, vec![]), "dev") {
        Err(AppError::NotFound(m)) => assert_eq!(m, "no active project"),
        _ => panic!("expected not found"),
    }
    assert_eq!(reset_overrides_target(&sn).ok(), Some(s("a")));
    assert!(reset_overrides_target(&snap(false, None, vec![])).is_err());
}

#[test]
fn fixed_items_read_back_as_their_actions() {
    let cases = [
        (FixedItem::Unlock, "unlock", Some("Unlock")),
        (FixedItem::NoProjects, "no-projects", Some("No projects configured")),
        (FixedItem::MixedLabel, "mixed-label", None),
        (FixedItem::ResetOverrides, "reset-overrides", Some("Reset Overrides")),
        (FixedItem::Open, "open", Some("Open sigyn")),
        (FixedItem::Lock, "lock", Some("Lock")),
        (FixedItem::Quit, "quit", Some("Quit")),
    ];
    for (item, id, label) in cases {
        assert_eq!(menu_item_id(&item), id);
        assert_eq!(menu_item_label(&item), label.map(s));
    }
    assert!(matches!(tray_action(&menu_item_id(&FixedItem::Unlock)), TrayAction::Unlock));
    assert!(matches!(tray_action(&menu_item_id(&FixedItem::NoProjects)), TrayAction::Ignore));
    assert!(matches!(tray_action(&menu_item_id(&FixedItem::MixedLabel)), TrayAction::Ignore));
    assert!(matches!(tray_action(&menu_item_id(&FixedItem::ResetOverrides)), TrayAction::ResetOverrides));
    let m = tray_menu(&snap(false, Some("a"), vec![project("a", "A", &["dev"], "dev", 0)]));
    match (&m.lines[0], &m.lines[1]) {
        (MenuLine::Submenu { items: ps, .. }, MenuLine::Submenu { items: es, .. }) => {
            assert!(matches!(tray_action(&ps[0].id), TrayAction::Project(p) if p == "a"));
            assert!(matches!(tray_action(&es[0].id), TrayAction::Environment(e) if e == "dev"));
        },
        _ => panic!("expected the two submenus"),
    }
}
