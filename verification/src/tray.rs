//! What the menu-bar item shows and does: which project is active, the
//! title, the menu's items, and what choosing an item asks for.

use vstd::prelude::*;
use crate::format::{decimal, decimal_digits};
use crate::model::{AppSnapshot, ProjectRecord, ProjectRecordV, SnapshotV};
use crate::order::str_eq;
use crate::seqs::{first_index, lemma_first_index_prefix, lemma_first_index_take};
use crate::text::{chars_of, push_chars, string_from_chars, string_from_range};
use crate::cli::{has_prefix, starts_with};
use crate::error::{AppError, is_not_found};

verus! {

pub open spec fn record_has_id(id: Seq<char>) -> spec_fn(ProjectRecordV) -> bool {
    |p: ProjectRecordV| p.id == id
}

/// Position of the active project of a snapshot: the one with the active id,
/// else the first; -1 when there is no project.
pub open spec fn active_index(s: SnapshotV) -> int {
    let found = match s.active {
        Some(a) => first_index(s.projects, record_has_id(a)),
        None => -1,
    };
    if found >= 0 {
        found
    } else if s.projects.len() > 0 {
        0
    } else {
        -1
    }
}

/// The lock glyph and a space while locked.
pub open spec fn lock_prefix(locked: bool) -> Seq<char> {
    if locked { seq!['\u{1F512}', ' '] } else { Seq::empty() }
}

/// The title: `[name | env]`, with ` +n` for n overrides, `[sigyn]`
/// without a project; behind the lock glyph while locked.
pub open spec fn tray_title_of(s: SnapshotV) -> Seq<char> {
    let i = active_index(s);
    if i >= 0 {
        let p = s.projects[i];
        let count = p.overrides.len();
        lock_prefix(s.locked) + seq!['['] + p.name + seq![' ', '|', ' '] + p.base
            + (if count > 0 { seq![' ', '+'] + decimal_digits(count) } else { Seq::empty() }) + seq![']']
    } else {
        lock_prefix(s.locked) + seq!['[', 's', 'i', 'g', 'y', 'n', ']']
    }
}

/// The position of the active project of a snapshot.
pub fn active_project(snapshot: &AppSnapshot) -> (r: Option<usize>)
    ensures
        match r {
            Some(i) => i as int == active_index(snapshot@) && i < snapshot@.projects.len(),
            None => active_index(snapshot@) == -1,
        },
{
    let ghost ps = snapshot@.projects;
    match &snapshot.active_project_id {
        Some(a) => {
            let ghost p = record_has_id(a@);
            let mut i: usize = 0;
            while i < snapshot.projects.len()
                invariant
                    i <= ps.len(),
                    ps == snapshot@.projects,
                    p == record_has_id(a@),
                    snapshot@.active == Some(a@),
                    first_index(ps.take(i as int), p) < 0,
                decreases ps.len() - i,
            {
                proof { lemma_first_index_take(ps, i as int, p); }
                if str_eq(snapshot.projects[i].id.as_str(), a.as_str()) {
                    proof { lemma_first_index_prefix(ps, i + 1, p); }
                    return Some(i);
                }
                i = i + 1;
            }
            assert(ps.take(ps.len() as int) =~= ps);
        },
        None => {},
    }
    if snapshot.projects.len() > 0 {
        Some(0)
    } else {
        None
    }
}

/// The title of the menu-bar item.
pub fn tray_title(snapshot: &AppSnapshot) -> (res: String)
    ensures
        res@ == tray_title_of(snapshot@),
{
    let mut out: Vec<char> = Vec::new();
    if snapshot.locked {
        out.push('\u{1F512}');
        out.push(' ');
    }
    assert(out@ =~= lock_prefix(snapshot.locked));
    match active_project(snapshot) {
        Some(i) => {
            let p = &snapshot.projects[i];
            let ghost pv = snapshot@.projects[i as int];
            out.push('[');
            push_chars(&mut out, p.name.as_str());
            out.push(' ');
            out.push('|');
            out.push(' ');
            push_chars(&mut out, p.active_base_environment.as_str());
            let count = p.entry_overrides.len();
            let ghost mid = out@;
            if count > 0 {
                out.push(' ');
                out.push('+');
                let digits = decimal(count);
                let mut k: usize = 0;
                let ghost before = out@;
                while k < digits.len()
                    invariant
                        k <= digits@.len(),
                        out@ == before + digits@.take(k as int),
                    decreases digits@.len() - k,
                {
                    out.push(digits[k]);
                    assert(digits@.take(k + 1) =~= digits@.take(k as int).push(digits@[k as int]));
                    k = k + 1;
                }
                assert(digits@.take(digits@.len() as int) =~= digits@);
                assert(out@ =~= mid + (seq![' ', '+'] + decimal_digits(count as nat)));
            } else {
                assert(out@ =~= mid + Seq::<char>::empty());
            }
            out.push(']');
            assert(pv.overrides.len() == count);
            assert(out@ =~= tray_title_of(snapshot@));
        },
        None => {
            out.push('[');
            out.push('s');
            out.push('i');
            out.push('g');
            out.push('y');
            out.push('n');
            out.push(']');
            assert(out@ =~= tray_title_of(snapshot@));
        },
    }
    string_from_chars(out.as_slice())
}

// ---------------------------------------------------------------- the menu

/// An item with a check mark: its id, label and whether it is checked.
pub struct CheckItem {
    pub id: String,
    pub label: String,
    pub checked: bool,
}

/// One line of the menu, in its order.
pub enum MenuLine {
    /// An item with its id, label and whether it can be chosen.
    Item { id: String, label: String, enabled: bool },
    /// A submenu of items with check marks.
    Submenu { id: String, label: String, items: Vec<CheckItem> },
    Separator,
}

pub enum MenuLineV {
    Item { id: Seq<char>, label: Seq<char>, enabled: bool },
    Submenu { id: Seq<char>, label: Seq<char>, items: Seq<(Seq<char>, Seq<char>, bool)> },
    Separator,
}

impl View for MenuLine {
    type V = MenuLineV;

    open spec fn view(&self) -> MenuLineV {
        match self {
            MenuLine::Item { id, label, enabled } => MenuLineV::Item { id: id@, label: label@, enabled: *enabled },
            MenuLine::Submenu { id, label, items } => MenuLineV::Submenu { id: id@, label: label@, items: checks_view(items@) },
            MenuLine::Separator => MenuLineV::Separator,
        }
    }
}

/// The menu of the menu-bar item: all its lines, in order.
pub struct TrayMenu {
    pub lines: Vec<MenuLine>,
}

pub open spec fn lines_view(v: Seq<MenuLine>) -> Seq<MenuLineV> {
    v.map_values(|l: MenuLine| l@)
}

pub open spec fn item_line(id: Seq<char>, label: Seq<char>, enabled: bool) -> MenuLineV {
    MenuLineV::Item { id, label, enabled }
}

/// The menu for a snapshot, line by line. While locked: "Unlock", a
/// separator, "Open sigyn" and "Quit". Unlocked with an active project: the
/// projects submenu, the active project's environment submenu, and when it
/// has overrides a disabled label counting them and "Reset Overrides";
/// unlocked without a project: a disabled "No projects configured"; then a
/// separator, "Open sigyn", "Lock" and "Quit".
pub open spec fn tray_menu_of(s: SnapshotV) -> Seq<MenuLineV> {
    if s.locked {
        seq![
            item_line("unlock"@, "Unlock"@, true),
            MenuLineV::Separator,
            item_line("open"@, "Open sigyn"@, true),
            item_line("quit"@, "Quit"@, true),
        ]
    } else {
        let i = active_index(s);
        let head = if i >= 0 {
            let p = s.projects[i];
            let n = p.overrides.len();
            seq![
                MenuLineV::Submenu { id: "projects"@, label: "Projects"@, items: project_items_of(s) },
                MenuLineV::Submenu { id: "environment"@, label: "Environment"@, items: environment_items_of(p) },
            ] + (if n > 0 {
                seq![item_line("mixed-label"@, mixed_label_of(n), false), item_line("reset-overrides"@, "Reset Overrides"@, true)]
            } else {
                Seq::empty()
            })
        } else {
            seq![item_line("no-projects"@, "No projects configured"@, false)]
        };
        head + seq![
            MenuLineV::Separator,
            item_line("open"@, "Open sigyn"@, true),
            item_line("lock"@, "Lock"@, true),
            item_line("quit"@, "Quit"@, true),
        ]
    }
}

fn plain_item(id: &str, label: &str, enabled: bool) -> (l: MenuLine)
    ensures
        l@ == item_line(id@, label@, enabled),
{
    MenuLine::Item { id: String::from_str(id), label: String::from_str(label), enabled }
}

pub open spec fn check_view(c: CheckItem) -> (Seq<char>, Seq<char>, bool) {
    (c.id@, c.label@, c.checked)
}

pub open spec fn checks_view(v: Seq<CheckItem>) -> Seq<(Seq<char>, Seq<char>, bool)> {
    v.map_values(|c: CheckItem| check_view(c))
}

/// The project items: each project, checked when it is the selected one.
pub open spec fn project_items_of(s: SnapshotV) -> Seq<(Seq<char>, Seq<char>, bool)> {
    s.projects.map_values(|p: ProjectRecordV| ("project:"@ + p.id, p.name, s.active == Some(p.id)))
}

/// The environment items of a project: each environment it supports,
/// checked when it is the base.
pub open spec fn environment_items_of(p: ProjectRecordV) -> Seq<(Seq<char>, Seq<char>, bool)> {
    p.supported.map_values(|e: Seq<char>| ("environment:"@ + e, e, e == p.base))
}

/// "Mixed — n override(s)".
pub open spec fn mixed_label_of(count: nat) -> Seq<char> {
    "Mixed \u{2014} "@ + decimal_digits(count) + " override"@ + (if count == 1 { Seq::empty() } else { seq!['s'] })
}

pub fn project_items(snapshot: &AppSnapshot) -> (r: Vec<CheckItem>)
    ensures
        checks_view(r@) == project_items_of(snapshot@),
{
    let mut r: Vec<CheckItem> = Vec::new();
    let mut i: usize = 0;
    while i < snapshot.projects.len()
        invariant
            i <= snapshot@.projects.len(),
            r@.len() == i,
            checks_view(r@) =~= project_items_of(snapshot@).take(i as int),
        decreases snapshot@.projects.len() - i,
    {
        let p = &snapshot.projects[i];
        let checked = match &snapshot.active_project_id {
            Some(a) => str_eq(a.as_str(), p.id.as_str()),
            None => false,
        };
        let id = String::from_str("project:").concat(p.id.as_str());
        assert(id@ == "project:"@ + p.id@);
        let ghost before = r@;
        r.push(CheckItem { id, label: p.name.clone(), checked });
        let ghost pv = snapshot@.projects[i as int];
        assert(pv == p@);
        assert(check_view(r@[i as int]) == project_items_of(snapshot@)[i as int]);
        assert(checks_view(r@) =~= checks_view(before).push(check_view(r@[i as int])));
        assert(checks_view(r@) =~= project_items_of(snapshot@).take(i + 1));
        i = i + 1;
    }
    r
}

pub fn environment_items(p: &ProjectRecord) -> (r: Vec<CheckItem>)
    ensures
        checks_view(r@) == environment_items_of(p@),
{
    let mut r: Vec<CheckItem> = Vec::new();
    let mut i: usize = 0;
    while i < p.supported_environments.len()
        invariant
            i <= p@.supported.len(),
            r@.len() == i,
            checks_view(r@) =~= environment_items_of(p@).take(i as int),
        decreases p@.supported.len() - i,
    {
        let e = &p.supported_environments[i];
        let checked = str_eq(e.as_str(), p.active_base_environment.as_str());
        let id = String::from_str("environment:").concat(e.as_str());
        assert(id@ == "environment:"@ + e@);
        let ghost before = r@;
        r.push(CheckItem { id, label: e.clone(), checked });
        assert(p@.supported[i as int] == e@);
        assert(check_view(r@[i as int]) == environment_items_of(p@)[i as int]);
        assert(checks_view(r@) =~= checks_view(before).push(check_view(r@[i as int])));
        assert(checks_view(r@) =~= environment_items_of(p@).take(i + 1));
        i = i + 1;
    }
    r
}

pub fn mixed_label(count: usize) -> (res: String)
    ensures
        res@ == mixed_label_of(count as nat),
{
    let mut out: Vec<char> = Vec::new();
    push_chars(&mut out, "Mixed \u{2014} ");
    let digits = decimal(count);
    let mut k: usize = 0;
    let ghost before = out@;
    while k < digits.len()
        invariant
            k <= digits@.len(),
            out@ == before + digits@.take(k as int),
        decreases digits@.len() - k,
    {
        out.push(digits[k]);
        assert(digits@.take(k + 1) =~= digits@.take(k as int).push(digits@[k as int]));
        k = k + 1;
    }
    assert(digits@.take(digits@.len() as int) =~= digits@);
    push_chars(&mut out, " override");
    if count != 1 {
        out.push('s');
    }
    assert(out@ =~= mixed_label_of(count as nat));
    string_from_chars(out.as_slice())
}

/// The menu for a snapshot, line by line (see [`tray_menu_of`]).
pub fn tray_menu(snapshot: &AppSnapshot) -> (m: TrayMenu)
    ensures
        lines_view(m.lines@) == tray_menu_of(snapshot@),
{
    let mut lines: Vec<MenuLine> = Vec::new();
    if snapshot.locked {
        lines.push(plain_item("unlock", "Unlock", true));
        lines.push(MenuLine::Separator);
        lines.push(plain_item("open", "Open sigyn", true));
        lines.push(plain_item("quit", "Quit", true));
        assert(lines_view(lines@) =~= tray_menu_of(snapshot@));
        return TrayMenu { lines };
    }
    match active_project(snapshot) {
        Some(i) => {
            let p = &snapshot.projects[i];
            lines.push(MenuLine::Submenu { id: String::from_str("projects"), label: String::from_str("Projects"), items: project_items(snapshot) });
            lines.push(MenuLine::Submenu { id: String::from_str("environment"), label: String::from_str("Environment"), items: environment_items(p) });
            let count = p.entry_overrides.len();
            if count > 0 {
                lines.push(MenuLine::Item { id: String::from_str("mixed-label"), label: mixed_label(count), enabled: false });
                lines.push(plain_item("reset-overrides", "Reset Overrides", true));
            }
        },
        None => {
            lines.push(plain_item("no-projects", "No projects configured", false));
        },
    }
    lines.push(MenuLine::Separator);
    lines.push(plain_item("open", "Open sigyn", true));
    lines.push(plain_item("lock", "Lock", true));
    lines.push(plain_item("quit", "Quit", true));
    assert(lines_view(lines@) =~= tray_menu_of(snapshot@));
    TrayMenu { lines }
}

/// The menu's items other than the projects and environments.
pub enum FixedItem {
    Unlock,
    NoProjects,
    MixedLabel,
    ResetOverrides,
    Open,
    Lock,
    Quit,
}

/// The id of a fixed item.
pub open spec fn fixed_item_id(item: FixedItem) -> Seq<char> {
    match item {
        FixedItem::Unlock => "unlock"@,
        FixedItem::NoProjects => "no-projects"@,
        FixedItem::MixedLabel => "mixed-label"@,
        FixedItem::ResetOverrides => "reset-overrides"@,
        FixedItem::Open => "open"@,
        FixedItem::Lock => "lock"@,
        FixedItem::Quit => "quit"@,
    }
}

/// The label of a fixed item; the mixed label's is [`mixed_label_of`] the
/// override count.
pub open spec fn fixed_item_label(item: FixedItem) -> Option<Seq<char>> {
    match item {
        FixedItem::Unlock => Some("Unlock"@),
        FixedItem::NoProjects => Some("No projects configured"@),
        FixedItem::MixedLabel => None,
        FixedItem::ResetOverrides => Some("Reset Overrides"@),
        FixedItem::Open => Some("Open sigyn"@),
        FixedItem::Lock => Some("Lock"@),
        FixedItem::Quit => Some("Quit"@),
    }
}

/// What choosing a fixed item asks for: the two disabled items do nothing.
pub open spec fn fixed_item_action(item: FixedItem) -> TrayActionV {
    match item {
        FixedItem::Unlock => TrayActionV::Unlock,
        FixedItem::NoProjects => TrayActionV::Ignore,
        FixedItem::MixedLabel => TrayActionV::Ignore,
        FixedItem::ResetOverrides => TrayActionV::ResetOverrides,
        FixedItem::Open => TrayActionV::Open,
        FixedItem::Lock => TrayActionV::Lock,
        FixedItem::Quit => TrayActionV::Quit,
    }
}

pub fn menu_item_id(item: &FixedItem) -> (r: String)
    ensures
        r@ == fixed_item_id(*item),
{
    match item {
        FixedItem::Unlock => String::from_str("unlock"),
        FixedItem::NoProjects => String::from_str("no-projects"),
        FixedItem::MixedLabel => String::from_str("mixed-label"),
        FixedItem::ResetOverrides => String::from_str("reset-overrides"),
        FixedItem::Open => String::from_str("open"),
        FixedItem::Lock => String::from_str("lock"),
        FixedItem::Quit => String::from_str("quit"),
    }
}

pub fn menu_item_label(item: &FixedItem) -> (r: Option<String>)
    ensures
        match r {
            Some(l) => fixed_item_label(*item) == Some(l@),
            None => fixed_item_label(*item) is None,
        },
{
    match item {
        FixedItem::Unlock => Some(String::from_str("Unlock")),
        FixedItem::NoProjects => Some(String::from_str("No projects configured")),
        FixedItem::MixedLabel => None,
        FixedItem::ResetOverrides => Some(String::from_str("Reset Overrides")),
        FixedItem::Open => Some(String::from_str("Open sigyn")),
        FixedItem::Lock => Some(String::from_str("Lock")),
        FixedItem::Quit => Some(String::from_str("Quit")),
    }
}

// ---------------------------------------------------------------- choosing an item

/// What choosing a menu item asks for.
pub enum TrayAction {
    Open,
    Quit,
    Lock,
    Unlock,
    ResetOverrides,
    /// Make the environment the active project's base.
    Environment(String),
    /// Make the project the active one.
    Project(String),
    /// An item that does nothing.
    Ignore,
}

/// The action of the item with the given id.
pub open spec fn tray_action_of(id: Seq<char>) -> TrayActionV {
    if id == "open"@ {
        TrayActionV::Open
    } else if id == "quit"@ {
        TrayActionV::Quit
    } else if id == "lock"@ {
        TrayActionV::Lock
    } else if id == "unlock"@ {
        TrayActionV::Unlock
    } else if id == "reset-overrides"@ {
        TrayActionV::ResetOverrides
    } else if has_prefix(id, "environment:"@) {
        TrayActionV::Environment(id.skip(12))
    } else if has_prefix(id, "project:"@) {
        TrayActionV::Project(id.skip(8))
    } else {
        TrayActionV::Ignore
    }
}

pub enum TrayActionV {
    Open,
    Quit,
    Lock,
    Unlock,
    ResetOverrides,
    Environment(Seq<char>),
    Project(Seq<char>),
    Ignore,
}

impl View for TrayAction {
    type V = TrayActionV;

    open spec fn view(&self) -> TrayActionV {
        match self {
            TrayAction::Open => TrayActionV::Open,
            TrayAction::Quit => TrayActionV::Quit,
            TrayAction::Lock => TrayActionV::Lock,
            TrayAction::Unlock => TrayActionV::Unlock,
            TrayAction::ResetOverrides => TrayActionV::ResetOverrides,
            TrayAction::Environment(e) => TrayActionV::Environment(e@),
            TrayAction::Project(p) => TrayActionV::Project(p@),
            TrayAction::Ignore => TrayActionV::Ignore,
        }
    }
}

pub fn tray_action(event_id: &str) -> (a: TrayAction)
    ensures
        a@ == tray_action_of(event_id@),
{
    proof {
        reveal_strlit("environment:");
        reveal_strlit("project:");
    }
    if str_eq(event_id, "open") {
        TrayAction::Open
    } else if str_eq(event_id, "quit") {
        TrayAction::Quit
    } else if str_eq(event_id, "lock") {
        TrayAction::Lock
    } else if str_eq(event_id, "unlock") {
        TrayAction::Unlock
    } else if str_eq(event_id, "reset-overrides") {
        TrayAction::ResetOverrides
    } else {
        let cs = chars_of(event_id);
        if starts_with(&cs, "environment:") {
            TrayAction::Environment(string_from_range(&cs, 12, cs.len()))
        } else if starts_with(&cs, "project:") {
            TrayAction::Project(string_from_range(&cs, 8, cs.len()))
        } else {
            TrayAction::Ignore
        }
    }
}

pub open spec fn no_active_project_message() -> Seq<char> {
    "no active project"@
}

/// Choosing an environment in the menu: the active project's id when the
/// environment is not already its base, nothing when it is.
pub fn base_environment_choice(snapshot: &AppSnapshot, environment: &str) -> (res: Result<Option<String>, AppError>)
    ensures
        active_index(snapshot@) < 0 ==> (res matches Err(e) && is_not_found(e, no_active_project_message())),
        active_index(snapshot@) >= 0 ==> {
            let p = snapshot@.projects[active_index(snapshot@)];
            if p.base == environment@ {
                res matches Ok(None)
            } else {
                res matches Ok(Some(id)) && id@ == p.id
            }
        },
{
    match active_project(snapshot) {
        None => Err(AppError::NotFound(String::from_str("no active project"))),
        Some(i) => {
            let p = &snapshot.projects[i];
            if str_eq(p.active_base_environment.as_str(), environment) {
                Ok(None)
            } else {
                Ok(Some(p.id.clone()))
            }
        },
    }
}

/// Resetting overrides from the menu applies to the active project.
pub fn reset_overrides_target(snapshot: &AppSnapshot) -> (res: Result<String, AppError>)
    ensures
        active_index(snapshot@) < 0 ==> (res matches Err(e) && is_not_found(e, no_active_project_message())),
        active_index(snapshot@) >= 0 ==> (res matches Ok(id) && id@ == snapshot@.projects[active_index(snapshot@)].id),
{
    match active_project(snapshot) {
        None => Err(AppError::NotFound(String::from_str("no active project"))),
        Some(i) => Ok(snapshot.projects[i].id.clone()),
    }
}

/// Every menu item's id is read back as its own action: a fixed item as
/// [`fixed_item_action`], a project item as choosing that project, an
/// environment item as choosing that environment.
pub proof fn lemma_menu_ids_read_back(item: FixedItem, id: Seq<char>, env: Seq<char>)
    ensures
        tray_action_of(fixed_item_id(item)) == fixed_item_action(item),
        tray_action_of("project:"@ + id) == TrayActionV::Project(id),
        tray_action_of("environment:"@ + env) == TrayActionV::Environment(env),
{
    reveal_strlit("unlock");
    reveal_strlit("no-projects");
    reveal_strlit("mixed-label");
    reveal_strlit("reset-overrides");
    reveal_strlit("open");
    reveal_strlit("lock");
    reveal_strlit("quit");
    reveal_strlit("environment:");
    reveal_strlit("project:");
    let p = "project:"@ + id;
    let e = "environment:"@ + env;
    assert(p[0] == 'p' && e[0] == 'e');
    assert(p.take(8) =~= "project:"@);
    assert(p.skip(8) =~= id);
    assert(e.take(12) =~= "environment:"@);
    assert(e.skip(12) =~= env);
    assert(p != "open"@ && p != "quit"@ && p != "lock"@ && p != "unlock"@ && p != "reset-overrides"@);
    assert(e != "open"@ && e != "quit"@ && e != "lock"@ && e != "unlock"@ && e != "reset-overrides"@);
    if p.len() >= 12 {
        assert(p.take(12)[0] == 'p');
    }
    assert(!has_prefix(p, "environment:"@));
    assert(!has_prefix("no-projects"@, "environment:"@));
    assert(!has_prefix("no-projects"@, "project:"@)) by {
        assert("no-projects"@.take(8)[0] == 'n');
    }
    assert(!has_prefix("mixed-label"@, "project:"@)) by {
        assert("mixed-label"@.take(8)[0] == 'm');
    }
    let o = "open"@;
    let q = "quit"@;
    let l = "lock"@;
    let u = "unlock"@;
    let r = "reset-overrides"@;
    assert(o[0] == 'o' && q[0] == 'q' && l[0] == 'l' && u[0] == 'u');
    assert(q != o && l != o && l != q);
    assert(u != o && u != q && u != l);
    assert(r != o && r != q && r != l && r != u);
    assert(!has_prefix("mixed-label"@, "environment:"@));
    assert("no-projects"@ != o && "no-projects"@ != q && "no-projects"@ != l && "no-projects"@ != u && "no-projects"@ != r);
    assert("mixed-label"@ != o && "mixed-label"@ != q && "mixed-label"@ != l && "mixed-label"@ != u && "mixed-label"@ != r);
}

} // verus!
