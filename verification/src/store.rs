//! The store: the projects, entries, encrypted values and overrides that the
//! app keeps, with the operations of the original SQLite store. Each table
//! keeps its rows in insertion order, as SQLite's rowids do; orders by name
//! are computed when a snapshot or preview is read.

use vstd::prelude::*;
use crate::error::{AppError, is_crypto, is_not_found, is_sql, is_validation};
use crate::model::{AppSnapshot, CreateProjectInput, EntryRecord, EntryRecordV, EntryValueRecord, ProjectRecord, ProjectRecordV, SnapshotV, UpdateProjectInput};
use crate::normalize::{
    dedup, empty_env_label_message, empty_project_name_message, env_label_of, env_labels,
    has_empty_label, no_environment_message, normalize_environment_name, normalize_optional_text,
    normalize_project_name, normalize_supported_environments, opt_view, optional_text_of, pairs_view,
    strings_view, unsupported_env_message,
};
use crate::sort::{keys_view, positions, stable_order, stable_sort};
use crate::text::{lower_chars, trim};
use crate::order::lowered;
use crate::order::str_eq;
use crate::laws::{lemma_delete_project_next_active, lemma_with_override_keeps_others};
use crate::order::lex_lt;
use crate::text::{chars_of, copy_opt, copy_strings};
use crate::seqs::{first_index, lemma_first_index, lemma_first_index_prefix, lemma_first_index_take, lemma_filter_take, lemma_filter_all};

verus! {

// ------------------------------------------------------------------ rows

/// A row of the projects table.
pub struct ProjectRow {
    pub id: String,
    pub name: String,
    pub working_directory: Option<String>,
    pub supported_environments: Vec<String>,
    pub base_environment: String,
}

/// A row of the entries table.
pub struct EntryRow {
    pub id: String,
    pub project_id: String,
    pub name: String,
    pub category: Option<String>,
    pub description: Option<String>,
}

/// A row of the entry values table: one encrypted value of an entry.
pub struct ValueRow {
    pub entry_id: String,
    pub environment_name: String,
    pub encrypted_value: String,
}

/// A row of the overrides table: the environment an entry takes its value
/// from instead of the project's base environment.
pub struct OverrideRow {
    pub project_id: String,
    pub entry_id: String,
    pub environment_name: String,
}

pub struct ProjectV {
    pub id: Seq<char>,
    pub name: Seq<char>,
    pub working_directory: Option<Seq<char>>,
    pub supported: Seq<Seq<char>>,
    pub base: Seq<char>,
}

pub struct EntryV {
    pub id: Seq<char>,
    pub project_id: Seq<char>,
    pub name: Seq<char>,
    pub category: Option<Seq<char>>,
    pub description: Option<Seq<char>>,
}

pub struct ValueV {
    pub entry_id: Seq<char>,
    pub environment: Seq<char>,
    pub encrypted: Seq<char>,
}

pub struct OverrideV {
    pub project_id: Seq<char>,
    pub entry_id: Seq<char>,
    pub environment: Seq<char>,
}

impl View for ProjectRow {
    type V = ProjectV;

    open spec fn view(&self) -> ProjectV {
        ProjectV {
            id: self.id@,
            name: self.name@,
            working_directory: opt_view(self.working_directory),
            supported: strings_view(self.supported_environments@),
            base: self.base_environment@,
        }
    }
}

impl View for EntryRow {
    type V = EntryV;

    open spec fn view(&self) -> EntryV {
        EntryV {
            id: self.id@,
            project_id: self.project_id@,
            name: self.name@,
            category: opt_view(self.category),
            description: opt_view(self.description),
        }
    }
}

impl View for ValueRow {
    type V = ValueV;

    open spec fn view(&self) -> ValueV {
        ValueV { entry_id: self.entry_id@, environment: self.environment_name@, encrypted: self.encrypted_value@ }
    }
}

impl View for OverrideRow {
    type V = OverrideV;

    open spec fn view(&self) -> OverrideV {
        OverrideV { project_id: self.project_id@, entry_id: self.entry_id@, environment: self.environment_name@ }
    }
}

impl ProjectRow {
    pub fn copy(&self) -> (r: ProjectRow)
        ensures
            r@ == self@,
    {
        ProjectRow {
            id: self.id.clone(),
            name: self.name.clone(),
            working_directory: copy_opt(&self.working_directory),
            supported_environments: copy_strings(&self.supported_environments),
            base_environment: self.base_environment.clone(),
        }
    }
}

impl EntryRow {
    pub fn copy(&self) -> (r: EntryRow)
        ensures
            r@ == self@,
    {
        EntryRow {
            id: self.id.clone(),
            project_id: self.project_id.clone(),
            name: self.name.clone(),
            category: copy_opt(&self.category),
            description: copy_opt(&self.description),
        }
    }
}

impl ValueRow {
    pub fn copy(&self) -> (r: ValueRow)
        ensures
            r@ == self@,
    {
        ValueRow {
            entry_id: self.entry_id.clone(),
            environment_name: self.environment_name.clone(),
            encrypted_value: self.encrypted_value.clone(),
        }
    }
}

impl OverrideRow {
    pub fn copy(&self) -> (r: OverrideRow)
        ensures
            r@ == self@,
    {
        OverrideRow {
            project_id: self.project_id.clone(),
            entry_id: self.entry_id.clone(),
            environment_name: self.environment_name.clone(),
        }
    }
}

/// The contents of the store.
pub struct StoreV {
    pub projects: Seq<ProjectV>,
    pub entries: Seq<EntryV>,
    pub values: Seq<ValueV>,
    pub overrides: Seq<OverrideV>,
    pub active: Option<Seq<char>>,
}

/// Why an operation is refused.
pub enum Fault {
    NotFound(Seq<char>),
    Validation(Seq<char>),
    Sql(Seq<char>),
    Crypto(Seq<char>),
}

/// `e` is the error that reports `f`.
pub open spec fn raises(e: AppError, f: Fault) -> bool {
    match f {
        Fault::NotFound(m) => is_not_found(e, m),
        Fault::Validation(m) => is_validation(e, m),
        Fault::Sql(m) => is_sql(e, m),
        Fault::Crypto(m) => is_crypto(e, m),
    }
}

pub open spec fn project_not_found() -> Seq<char> {
    "project not found"@
}

pub open spec fn entry_not_found() -> Seq<char> {
    "entry not found"@
}

// ------------------------------------------------------------------ predicates on rows

pub open spec fn project_has_id(id: Seq<char>) -> spec_fn(ProjectV) -> bool {
    |p: ProjectV| p.id == id
}

pub open spec fn override_not_of_project(pid: Seq<char>) -> spec_fn(OverrideV) -> bool {
    |o: OverrideV| o.project_id != pid
}

pub open spec fn override_is(pid: Seq<char>, eid: Seq<char>) -> spec_fn(OverrideV) -> bool {
    |o: OverrideV| o.project_id == pid && o.entry_id == eid
}

pub open spec fn override_not(pid: Seq<char>, eid: Seq<char>) -> spec_fn(OverrideV) -> bool {
    |o: OverrideV| !(o.project_id == pid && o.entry_id == eid)
}

pub open spec fn entry_in_project(eid: Seq<char>, pid: Seq<char>) -> spec_fn(EntryV) -> bool {
    |e: EntryV| e.id == eid && e.project_id == pid
}

pub open spec fn entry_not_in_project(eid: Seq<char>, pid: Seq<char>) -> spec_fn(EntryV) -> bool {
    |e: EntryV| !(e.id == eid && e.project_id == pid)
}

pub open spec fn value_not_of_entry(eid: Seq<char>) -> spec_fn(ValueV) -> bool {
    |v: ValueV| v.entry_id != eid
}

pub open spec fn override_not_of_entry(eid: Seq<char>) -> spec_fn(OverrideV) -> bool {
    |o: OverrideV| o.entry_id != eid
}

// ------------------------------------------------------------------ the operations, on contents

impl StoreV {
    /// Position of the first project with the given id, or -1.
    pub open spec fn project_index(self, id: Seq<char>) -> int {
        first_index(self.projects, project_has_id(id))
    }

    /// `select_project`: the project must exist; it becomes the active one.
    pub open spec fn select_project(self, id: Seq<char>) -> Result<StoreV, Fault> {
        if self.project_index(id) < 0 {
            Err(Fault::NotFound(project_not_found()))
        } else {
            Ok(StoreV { active: Some(id), ..self })
        }
    }

    /// `reset_overrides`: every override of the project is removed.
    pub open spec fn reset_overrides(self, pid: Seq<char>) -> StoreV {
        StoreV { overrides: self.overrides.filter(override_not_of_project(pid)), ..self }
    }

    /// `set_base_environment`: the label must be one the project supports; it
    /// becomes the base and the project's overrides are removed.
    pub open spec fn set_base_environment(self, pid: Seq<char>, environment: Seq<char>) -> Result<StoreV, Fault> {
        let i = self.project_index(pid);
        let env = env_label_of(environment);
        if i < 0 {
            Err(Fault::NotFound(project_not_found()))
        } else if env.len() == 0 {
            Err(Fault::Validation(empty_env_label_message()))
        } else if !self.projects[i].supported.contains(env) {
            Err(Fault::Validation(unsupported_env_message(env)))
        } else {
            Ok(StoreV {
                projects: self.projects.map_values(|p: ProjectV| if p.id == pid { ProjectV { base: env, ..p } } else { p }),
                overrides: self.overrides.filter(override_not_of_project(pid)),
                ..self
            })
        }
    }

    /// The overrides without the one of `(pid, eid)`.
    pub open spec fn without_override(self, pid: Seq<char>, eid: Seq<char>) -> StoreV {
        StoreV { overrides: self.overrides.filter(override_not(pid, eid)), ..self }
    }

    /// The override of `(pid, eid)` set to `env`, replacing an existing one.
    pub open spec fn with_override(self, pid: Seq<char>, eid: Seq<char>, env: Seq<char>) -> StoreV {
        if first_index(self.overrides, override_is(pid, eid)) >= 0 {
            StoreV {
                overrides: self.overrides.map_values(|o: OverrideV| if o.project_id == pid && o.entry_id == eid { OverrideV { environment: env, ..o } } else { o }),
                ..self
            }
        } else {
            StoreV { overrides: self.overrides.push(OverrideV { project_id: pid, entry_id: eid, environment: env }), ..self }
        }
    }

    /// `set_entry_override`: the entry must belong to the project; choosing
    /// the base environment, or none, removes the override.
    pub open spec fn set_entry_override(self, pid: Seq<char>, eid: Seq<char>, environment: Option<Seq<char>>) -> Result<StoreV, Fault> {
        let i = self.project_index(pid);
        if i < 0 {
            Err(Fault::NotFound(project_not_found()))
        } else if first_index(self.entries, entry_in_project(eid, pid)) < 0 {
            Err(Fault::NotFound(entry_not_found()))
        } else {
            match environment {
                Some(e) => {
                    let env = env_label_of(e);
                    if env.len() == 0 {
                        Err(Fault::Validation(empty_env_label_message()))
                    } else if !self.projects[i].supported.contains(env) {
                        Err(Fault::Validation(unsupported_env_message(env)))
                    } else if env == self.projects[i].base {
                        Ok(self.without_override(pid, eid))
                    } else {
                        Ok(self.with_override(pid, eid, env))
                    }
                },
                None => Ok(self.without_override(pid, eid)),
            }
        }
    }

    /// `delete_entry`: the entry must belong to the project; its values and
    /// overrides go with it.
    pub open spec fn delete_entry(self, pid: Seq<char>, eid: Seq<char>) -> Result<StoreV, Fault> {
        if first_index(self.entries, entry_in_project(eid, pid)) < 0 {
            Err(Fault::NotFound(entry_not_found()))
        } else {
            Ok(StoreV {
                entries: self.entries.filter(entry_not_in_project(eid, pid)),
                values: self.values.filter(value_not_of_entry(eid)),
                overrides: self.overrides.filter(override_not_of_entry(eid)),
                ..self
            })
        }
    }
}

impl StoreV {
    /// The stored project names, folded for the `NOCASE` collation.
    pub open spec fn name_keys(projects: Seq<ProjectV>) -> Seq<Seq<char>> {
        projects.map_values(|p: ProjectV| lower_chars(p.name))
    }

    /// Whether a project other than `pid` is named `name`.
    pub open spec fn name_taken(self, name: Seq<char>, pid: Option<Seq<char>>) -> bool {
        exists|j: int| 0 <= j < self.projects.len() && #[trigger] self.projects[j].name == name
            && pid != Some(self.projects[j].id)
    }

    /// Why a project's name and environments are refused, if they are.
    pub open spec fn project_fields_fault(name: Seq<char>, envs: Seq<String>) -> Option<Fault> {
        if trim(name).len() == 0 {
            Some(Fault::Validation(empty_project_name_message()))
        } else if has_empty_label(envs) {
            Some(Fault::Validation(empty_env_label_message()))
        } else if envs.len() == 0 {
            Some(Fault::Validation(no_environment_message()))
        } else {
            None
        }
    }

    /// `create_project` with the new project's id given: the project is
    /// added with its first environment as base and becomes the active one.
    pub open spec fn create_project(self, name: Seq<char>, envs: Seq<String>, wd: Option<Seq<char>>, id: Seq<char>) -> Result<StoreV, Fault> {
        match Self::project_fields_fault(name, envs) {
            Some(f) => Err(f),
            None => {
                let labels = dedup(env_labels(envs));
                if exists|j: int| 0 <= j < self.projects.len() && #[trigger] self.projects[j].id == id {
                    Err(Fault::Sql("UNIQUE constraint failed: projects.id"@))
                } else if self.name_taken(trim(name), None) {
                    Err(Fault::Sql("UNIQUE constraint failed: projects.name"@))
                } else {
                    Ok(StoreV {
                        projects: self.projects.push(ProjectV {
                            id,
                            name: trim(name),
                            working_directory: optional_text_of(wd),
                            supported: labels,
                            base: labels[0],
                        }),
                        active: Some(id),
                        ..self
                    })
                }
            },
        }
    }

    /// `rename_project`.
    pub open spec fn rename_project(self, pid: Seq<char>, name: Seq<char>) -> Result<StoreV, Fault> {
        if trim(name).len() == 0 {
            Err(Fault::Validation(empty_project_name_message()))
        } else if self.project_index(pid) < 0 {
            Err(Fault::NotFound(project_not_found()))
        } else if self.name_taken(trim(name), Some(pid)) {
            Err(Fault::Sql("UNIQUE constraint failed: projects.name"@))
        } else {
            Ok(StoreV {
                projects: self.projects.map_values(|p: ProjectV| if p.id == pid { ProjectV { name: trim(name), ..p } } else { p }),
                ..self
            })
        }
    }

    /// `update_project`: an environment the project supports may not be
    /// removed; the base environment is kept.
    pub open spec fn update_project(self, pid: Seq<char>, name: Seq<char>, envs: Seq<String>, wd: Option<Seq<char>>) -> Result<StoreV, Fault> {
        match Self::project_fields_fault(name, envs) {
            Some(f) => Err(f),
            None => {
                let labels = dedup(env_labels(envs));
                let i = self.project_index(pid);
                if i < 0 {
                    Err(Fault::NotFound(project_not_found()))
                } else {
                    let existing = self.projects[i].supported;
                    let r = first_index(existing, |e: Seq<char>| !labels.contains(e));
                    if r >= 0 {
                        Err(Fault::Validation("removing supported environment `"@ + existing[r] + "` is not supported yet"@))
                    } else if self.name_taken(trim(name), Some(pid)) {
                        Err(Fault::Sql("UNIQUE constraint failed: projects.name"@))
                    } else {
                        Ok(StoreV {
                            projects: self.projects.map_values(|p: ProjectV| if p.id == pid {
                                ProjectV { name: trim(name), working_directory: optional_text_of(wd), supported: labels, ..p }
                            } else {
                                p
                            }),
                            ..self
                        })
                    }
                }
            },
        }
    }

    /// The ids of the entries of a project.
    pub open spec fn entry_ids_of(self, pid: Seq<char>) -> Seq<Seq<char>> {
        entry_ids(self.entries.filter(entry_of_project(pid)))
    }

    /// `delete_project`: its entries, their values and its overrides go with
    /// it; if it was active, the first remaining project by name becomes
    /// active, or none.
    pub open spec fn delete_project(self, pid: Seq<char>) -> Result<StoreV, Fault> {
        if self.project_index(pid) < 0 {
            Err(Fault::NotFound(project_not_found()))
        } else {
            let gone = self.entry_ids_of(pid);
            let projects = self.projects.filter(project_not_id(pid));
            let order = stable_order(Self::name_keys(projects));
            Ok(StoreV {
                projects,
                entries: self.entries.filter(entry_not_of_project(pid)),
                values: self.values.filter(value_not_in(gone)),
                overrides: self.overrides.filter(override_not_in(pid, gone)),
                active: if self.active == Some(pid) {
                    if order.len() > 0 { Some(projects[order[0]].id) } else { None }
                } else {
                    self.active
                },
            })
        }
    }
}

pub open spec fn entry_ids(es: Seq<EntryV>) -> Seq<Seq<char>> {
    es.map_values(|e: EntryV| e.id)
}

pub open spec fn project_not_id(pid: Seq<char>) -> spec_fn(ProjectV) -> bool {
    |p: ProjectV| p.id != pid
}

pub open spec fn entry_of_project(pid: Seq<char>) -> spec_fn(EntryV) -> bool {
    |e: EntryV| e.project_id == pid
}

pub open spec fn entry_not_of_project(pid: Seq<char>) -> spec_fn(EntryV) -> bool {
    |e: EntryV| e.project_id != pid
}

pub open spec fn value_not_in(gone: Seq<Seq<char>>) -> spec_fn(ValueV) -> bool {
    |v: ValueV| !gone.contains(v.entry_id)
}

pub open spec fn override_not_in(pid: Seq<char>, gone: Seq<Seq<char>>) -> spec_fn(OverrideV) -> bool {
    |o: OverrideV| o.project_id != pid && !gone.contains(o.entry_id)
}

// ------------------------------------------------------------------ snapshots

/// The elements of `s` at the positions `order`, in that order.
pub open spec fn arrange<T>(s: Seq<T>, order: Seq<int>) -> Seq<T> {
    order.map_values(|k: int| s[k])
}

pub open spec fn override_of_project(pid: Seq<char>) -> spec_fn(OverrideV) -> bool {
    |o: OverrideV| o.project_id == pid
}

pub open spec fn value_of_entry(eid: Seq<char>) -> spec_fn(ValueV) -> bool {
    |v: ValueV| v.entry_id == eid
}

/// Overrides are listed by entry id (byte order).
pub open spec fn override_keys(os: Seq<OverrideV>) -> Seq<Seq<char>> {
    os.map_values(|o: OverrideV| o.entry_id)
}

/// Values are listed by environment (`NOCASE`).
pub open spec fn value_keys(vs: Seq<ValueV>) -> Seq<Seq<char>> {
    vs.map_values(|v: ValueV| lower_chars(v.environment))
}

/// Entries are listed by name (`NOCASE`).
pub open spec fn entry_keys(es: Seq<EntryV>) -> Seq<Seq<char>> {
    es.map_values(|e: EntryV| lower_chars(e.name))
}

impl StoreV {
    /// A project's overrides as (entry id, environment), by entry id.
    pub open spec fn project_overrides(self, pid: Seq<char>) -> Seq<(Seq<char>, Seq<char>)> {
        let os = self.overrides.filter(override_of_project(pid));
        arrange(os, stable_order(override_keys(os))).map_values(|o: OverrideV| (o.entry_id, o.environment))
    }

    /// The environments for which an entry has a value, by environment.
    pub open spec fn value_envs(self, eid: Seq<char>) -> Seq<Seq<char>> {
        let vs = self.values.filter(value_of_entry(eid));
        arrange(vs, stable_order(value_keys(vs))).map_values(|v: ValueV| v.environment)
    }

    pub open spec fn entry_record(self, e: EntryV) -> EntryRecordV {
        EntryRecordV {
            id: e.id,
            name: e.name,
            category: e.category,
            description: e.description,
            values: self.value_envs(e.id),
        }
    }

    /// A project's entries, by name.
    pub open spec fn project_entries(self, pid: Seq<char>) -> Seq<EntryRecordV> {
        let es = self.entries.filter(entry_of_project(pid));
        arrange(es, stable_order(entry_keys(es))).map_values(|e: EntryV| self.entry_record(e))
    }

    pub open spec fn project_record(self, p: ProjectV, with_entries: bool) -> ProjectRecordV {
        ProjectRecordV {
            id: p.id,
            name: p.name,
            working_directory: p.working_directory,
            supported: p.supported,
            base: p.base,
            overrides: self.project_overrides(p.id),
            entries: if with_entries { self.project_entries(p.id) } else { Seq::empty() },
        }
    }

    /// The projects, by name.
    pub open spec fn project_order(self) -> Seq<int> {
        stable_order(Self::name_keys(self.projects))
    }

    /// The selected project when it still exists, else the first project by
    /// name, else none.
    pub open spec fn resolved_active(self) -> Option<Seq<char>> {
        match self.active {
            Some(a) if self.project_index(a) >= 0 => Some(a),
            _ => if self.project_order().len() > 0 {
                Some(self.projects[self.project_order()[0]].id)
            } else {
                None
            },
        }
    }

    /// What the app shows: projects by name, with their entries unless
    /// locked.
    pub open spec fn snapshot(self, locked: bool) -> SnapshotV {
        SnapshotV {
            locked,
            active: self.resolved_active(),
            projects: arrange(self.projects, self.project_order()).map_values(|p: ProjectV| self.project_record(p, !locked)),
        }
    }
}

// ------------------------------------------------------------------ the store

/// `Uuid::new_v4` written with `to_string`: a random version-4 UUID in its
/// 36-character hyphenated form. Nothing else is known of it.
#[verifier::external_body]
pub(crate) fn new_entity_id() -> (id: String)
    ensures
        id@.len() == 36,
{
    uuid::Uuid::new_v4().to_string()
}

/// What clearing the local data removed.
pub struct ResetDataReport {
    pub data_dir_removed: bool,
}

/// The store's tables, each in insertion order, and the active project id.
pub struct Store {
    pub projects: Vec<ProjectRow>,
    pub entries: Vec<EntryRow>,
    pub entry_values: Vec<ValueRow>,
    pub entry_overrides: Vec<OverrideRow>,
    pub active_project_id: Option<String>,
}

impl View for Store {
    type V = StoreV;

    open spec fn view(&self) -> StoreV {
        StoreV {
            projects: self.projects@.map_values(|r: ProjectRow| r@),
            entries: self.entries@.map_values(|r: EntryRow| r@),
            values: self.entry_values@.map_values(|r: ValueRow| r@),
            overrides: self.entry_overrides@.map_values(|r: OverrideRow| r@),
            active: opt_view(self.active_project_id),
        }
    }
}

/// `res` reports the outcome `spec` of an operation on `old`, leaving the
/// store as `new`: the new contents on success, unchanged on failure.
pub open spec fn reports<T>(res: Result<T, AppError>, spec: Result<StoreV, Fault>, old: StoreV, new: StoreV) -> bool {
    match spec {
        Ok(s) => res is Ok && new == s,
        Err(f) => res matches Err(e) && raises(e, f) && new == old,
    }
}

impl Store {
    /// An empty store.
    pub fn new() -> (s: Store)
        ensures
            s@.projects.len() == 0,
            s@.entries.len() == 0,
            s@.values.len() == 0,
            s@.overrides.len() == 0,
            s@.active is None,
            s@.consistent(),
    {
        Store {
            projects: Vec::new(),
            entries: Vec::new(),
            entry_values: Vec::new(),
            entry_overrides: Vec::new(),
            active_project_id: None,
        }
    }

    /// Whether any encrypted value is stored.
    pub fn has_encrypted_entries(&self) -> (res: bool)
        ensures
            res == (self@.values.len() > 0),
    {
        self.entry_values.len() > 0
    }

    /// The position of the first project with the given id.
    pub fn project_position(&self, id: &str) -> (r: Option<usize>)
        ensures
            match r {
                Some(i) => i as int == self@.project_index(id@) && i < self@.projects.len(),
                None => self@.project_index(id@) < 0,
            },
    {
        let ghost ps = self@.projects;
        let ghost p = project_has_id(id@);
        let mut i: usize = 0;
        while i < self.projects.len()
            invariant
                i <= ps.len(),
                ps == self@.projects,
                p == project_has_id(id@),
                first_index(ps.take(i as int), p) < 0,
            decreases ps.len() - i,
        {
            proof { lemma_first_index_take(ps, i as int, p); }
            if str_eq(self.projects[i].id.as_str(), id) {
                proof { lemma_first_index_prefix(ps, i + 1, p); }
                return Some(i);
            }
            i = i + 1;
        }
        assert(ps.take(ps.len() as int) =~= ps);
        None
    }

    /// The position of the first entry with the given id in the given project.
    pub fn entry_position(&self, eid: &str, pid: &str) -> (r: Option<usize>)
        ensures
            match r {
                Some(i) => i as int == first_index(self@.entries, entry_in_project(eid@, pid@)) && i < self@.entries.len(),
                None => first_index(self@.entries, entry_in_project(eid@, pid@)) < 0,
            },
    {
        let ghost es = self@.entries;
        let ghost p = entry_in_project(eid@, pid@);
        let mut i: usize = 0;
        while i < self.entries.len()
            invariant
                i <= es.len(),
                es == self@.entries,
                p == entry_in_project(eid@, pid@),
                first_index(es.take(i as int), p) < 0,
            decreases es.len() - i,
        {
            proof { lemma_first_index_take(es, i as int, p); }
            if str_eq(self.entries[i].id.as_str(), eid) && str_eq(self.entries[i].project_id.as_str(), pid) {
                proof { lemma_first_index_prefix(es, i + 1, p); }
                return Some(i);
            }
            i = i + 1;
        }
        assert(es.take(es.len() as int) =~= es);
        None
    }

    /// Removes the overrides of a project.
    pub fn drop_project_overrides(&mut self, pid: &str)
        ensures
            final(self)@ == old(self)@.reset_overrides(pid@),
    {
        let ghost os = old(self)@.overrides;
        let ghost p = override_not_of_project(pid@);
        let mut kept: Vec<OverrideRow> = Vec::new();
        let rest = &self.entry_overrides;
        let mut i: usize = 0;
        while i < rest.len()
            invariant
                i <= rest@.len(),
                rest@.map_values(|r: OverrideRow| r@) == os,
                kept@.map_values(|r: OverrideRow| r@) == os.take(i as int).filter(p),
                p == override_not_of_project(pid@),
            decreases rest@.len() - i,
        {
            proof { lemma_filter_take(os, i as int, p); }
            if !str_eq(rest[i].project_id.as_str(), pid) {
                let row = OverrideRow {
                    project_id: rest[i].project_id.clone(),
                    entry_id: rest[i].entry_id.clone(),
                    environment_name: rest[i].environment_name.clone(),
                };
                kept.push(row);
                assert(kept@.map_values(|r: OverrideRow| r@) =~= os.take(i as int).filter(p).push(os[i as int]));
            }
            i = i + 1;
        }
        proof { lemma_filter_all(os, p); }
        self.entry_overrides = kept;
    }

    /// Removes the override of an entry in a project.
    fn drop_override(&mut self, pid: &str, eid: &str)
        ensures
            final(self)@ == old(self)@.without_override(pid@, eid@),
    {
        let ghost os = old(self)@.overrides;
        let ghost p = override_not(pid@, eid@);
        let mut kept: Vec<OverrideRow> = Vec::new();
        let rest = &self.entry_overrides;
        let mut i: usize = 0;
        while i < rest.len()
            invariant
                i <= rest@.len(),
                rest@.map_values(|r: OverrideRow| r@) == os,
                kept@.map_values(|r: OverrideRow| r@) == os.take(i as int).filter(p),
                p == override_not(pid@, eid@),
            decreases rest@.len() - i,
        {
            proof { lemma_filter_take(os, i as int, p); }
            if !(str_eq(rest[i].project_id.as_str(), pid) && str_eq(rest[i].entry_id.as_str(), eid)) {
                kept.push(rest[i].copy());
                assert(kept@.map_values(|r: OverrideRow| r@) =~= os.take(i as int).filter(p).push(os[i as int]));
            }
            i = i + 1;
        }
        proof { lemma_filter_all(os, p); }
        self.entry_overrides = kept;
    }

    /// Sets the override of an entry in a project, replacing an existing one.
    fn put_override(&mut self, pid: &str, eid: &str, env: &String)
        ensures
            final(self)@ == old(self)@.with_override(pid@, eid@, env@),
            forall|pid2: Seq<char>, eid2: Seq<char>| !(pid2 == pid@ && eid2 == eid@) ==>
                #[trigger] final(self)@.override_env(pid2, eid2) == old(self)@.override_env(pid2, eid2),
    {
        proof { lemma_with_override_keeps_others(old(self)@, pid@, eid@, env@); }
        let ghost os = old(self)@.overrides;
        let ghost p = override_is(pid@, eid@);
        let ghost f = |o: OverrideV| if o.project_id == pid@ && o.entry_id == eid@ { OverrideV { environment: env@, ..o } } else { o };
        let mut out: Vec<OverrideRow> = Vec::new();
        let mut found = false;
        let rest = &self.entry_overrides;
        let mut i: usize = 0;
        while i < rest.len()
            invariant
                i <= rest@.len(),
                rest@.map_values(|r: OverrideRow| r@) == os,
                out@.map_values(|r: OverrideRow| r@) == os.take(i as int).map_values(f),
                found == (first_index(os.take(i as int), p) >= 0),
                p == override_is(pid@, eid@),
                f == (|o: OverrideV| if o.project_id == pid@ && o.entry_id == eid@ { OverrideV { environment: env@, ..o } } else { o }),
            decreases rest@.len() - i,
        {
            assert(os.take(i + 1).drop_last() =~= os.take(i as int));
            if str_eq(rest[i].project_id.as_str(), pid) && str_eq(rest[i].entry_id.as_str(), eid) {
                let row = OverrideRow {
                    project_id: rest[i].project_id.clone(),
                    entry_id: rest[i].entry_id.clone(),
                    environment_name: env.clone(),
                };
                assert(row@ == f(os[i as int]));
                let ghost before = out@.map_values(|r: OverrideRow| r@);
                out.push(row);
                assert(out@.map_values(|r: OverrideRow| r@) =~= before.push(row@));
                found = true;
            } else {
                let row = rest[i].copy();
                assert(row@ == f(os[i as int]));
                let ghost before = out@.map_values(|r: OverrideRow| r@);
                out.push(row);
                assert(out@.map_values(|r: OverrideRow| r@) =~= before.push(row@));
            }
            assert(os.take(i + 1).map_values(f) =~= os.take(i as int).map_values(f).push(f(os[i as int])));
            i = i + 1;
        }
        assert(os.take(os.len() as int) =~= os);
        if found {
            self.entry_overrides = out;
        } else {
            let row = OverrideRow { project_id: String::from_str(pid), entry_id: String::from_str(eid), environment_name: env.clone() };
            self.entry_overrides.push(row);
            assert(self@.overrides =~= os.push(OverrideV { project_id: pid@, entry_id: eid@, environment: env@ }));
        }
    }

    /// Sets the base environment of the projects with the given id.
    fn set_project_base(&mut self, pid: &str, env: &String)
        ensures
            final(self)@ == (StoreV {
                projects: old(self)@.projects.map_values(|p: ProjectV| if p.id == pid@ { ProjectV { base: env@, ..p } } else { p }),
                ..old(self)@
            }),
    {
        let ghost ps = old(self)@.projects;
        let ghost f = |p: ProjectV| if p.id == pid@ { ProjectV { base: env@, ..p } } else { p };
        let mut out: Vec<ProjectRow> = Vec::new();
        let rest = &self.projects;
        let mut i: usize = 0;
        while i < rest.len()
            invariant
                i <= rest@.len(),
                rest@.map_values(|r: ProjectRow| r@) == ps,
                out@.map_values(|r: ProjectRow| r@) == ps.take(i as int).map_values(f),
                f == (|p: ProjectV| if p.id == pid@ { ProjectV { base: env@, ..p } } else { p }),
            decreases rest@.len() - i,
        {
            let ghost before = out@.map_values(|r: ProjectRow| r@);
            let row = if str_eq(rest[i].id.as_str(), pid) {
                ProjectRow {
                    id: rest[i].id.clone(),
                    name: rest[i].name.clone(),
                    working_directory: copy_opt(&rest[i].working_directory),
                    supported_environments: copy_strings(&rest[i].supported_environments),
                    base_environment: env.clone(),
                }
            } else {
                rest[i].copy()
            };
            assert(row@ == f(ps[i as int]));
            out.push(row);
            assert(out@.map_values(|r: ProjectRow| r@) =~= before.push(row@));
            assert(ps.take(i + 1).map_values(f) =~= ps.take(i as int).map_values(f).push(f(ps[i as int])));
            assert(out@.map_values(|r: ProjectRow| r@) =~= ps.take(i + 1).map_values(f));
            i = i + 1;
        }
        assert(ps.take(ps.len() as int) =~= ps);
        self.projects = out;
    }

    /// Removes an entry of a project, with its values and overrides.
    fn drop_entry(&mut self, eid: &str, pid: &str)
        ensures
            final(self)@ == (StoreV {
                entries: old(self)@.entries.filter(entry_not_in_project(eid@, pid@)),
                values: old(self)@.values.filter(value_not_of_entry(eid@)),
                overrides: old(self)@.overrides.filter(override_not_of_entry(eid@)),
                ..old(self)@
            }),
    {
        let ghost es = old(self)@.entries;
        let ghost pe = entry_not_in_project(eid@, pid@);
        let mut kept: Vec<EntryRow> = Vec::new();
        let mut i: usize = 0;
        while i < self.entries.len()
            invariant
                i <= es.len(),
                self@ == old(self)@,
                kept@.map_values(|r: EntryRow| r@) == es.take(i as int).filter(pe),
                pe == entry_not_in_project(eid@, pid@),
                es == old(self)@.entries,
            decreases es.len() - i,
        {
            proof { lemma_filter_take(es, i as int, pe); }
            if !(str_eq(self.entries[i].id.as_str(), eid) && str_eq(self.entries[i].project_id.as_str(), pid)) {
                kept.push(self.entries[i].copy());
                assert(kept@.map_values(|r: EntryRow| r@) =~= es.take(i as int).filter(pe).push(es[i as int]));
            }
            i = i + 1;
        }
        proof { lemma_filter_all(es, pe); }
        let ghost vs = old(self)@.values;
        let ghost pv = value_not_of_entry(eid@);
        let mut kept_values: Vec<ValueRow> = Vec::new();
        let mut i: usize = 0;
        while i < self.entry_values.len()
            invariant
                i <= vs.len(),
                self@ == old(self)@,
                kept_values@.map_values(|r: ValueRow| r@) == vs.take(i as int).filter(pv),
                pv == value_not_of_entry(eid@),
                vs == old(self)@.values,
            decreases vs.len() - i,
        {
            proof { lemma_filter_take(vs, i as int, pv); }
            if !str_eq(self.entry_values[i].entry_id.as_str(), eid) {
                kept_values.push(self.entry_values[i].copy());
                assert(kept_values@.map_values(|r: ValueRow| r@) =~= vs.take(i as int).filter(pv).push(vs[i as int]));
            }
            i = i + 1;
        }
        proof { lemma_filter_all(vs, pv); }
        let ghost os = old(self)@.overrides;
        let ghost po = override_not_of_entry(eid@);
        let mut kept_overrides: Vec<OverrideRow> = Vec::new();
        let mut i: usize = 0;
        while i < self.entry_overrides.len()
            invariant
                i <= os.len(),
                self@ == old(self)@,
                kept_overrides@.map_values(|r: OverrideRow| r@) == os.take(i as int).filter(po),
                po == override_not_of_entry(eid@),
                os == old(self)@.overrides,
            decreases os.len() - i,
        {
            proof { lemma_filter_take(os, i as int, po); }
            if !str_eq(self.entry_overrides[i].entry_id.as_str(), eid) {
                kept_overrides.push(self.entry_overrides[i].copy());
                assert(kept_overrides@.map_values(|r: OverrideRow| r@) =~= os.take(i as int).filter(po).push(os[i as int]));
            }
            i = i + 1;
        }
        proof { lemma_filter_all(os, po); }
        self.entries = kept;
        self.entry_values = kept_values;
        self.entry_overrides = kept_overrides;
    }

    /// Checks that a project supports an environment label given by the
    /// user, and returns the label.
    fn supported_label(&self, i: usize, environment: &str) -> (res: Result<String, AppError>)
        requires
            i < self@.projects.len(),
        ensures
            match res {
                Ok(env) => {
                    &&& env@ == env_label_of(environment@)
                    &&& env@.len() > 0
                    &&& self@.projects[i as int].supported.contains(env@)
                },
                Err(e) => {
                    ||| env_label_of(environment@).len() == 0 && is_validation(e, empty_env_label_message())
                    ||| env_label_of(environment@).len() > 0 && !self@.projects[i as int].supported.contains(env_label_of(environment@))
                        && is_validation(e, unsupported_env_message(env_label_of(environment@)))
                },
            },
    {
        let env = match normalize_environment_name(environment) {
            Ok(e) => e,
            Err(e) => { return Err(e); },
        };
        let supported = &self.projects[i].supported_environments;
        let ghost sv = self@.projects[i as int].supported;
        assert(sv == strings_view(supported@));
        let mut k: usize = 0;
        while k < supported.len()
            invariant
                k <= supported@.len(),
                i < self@.projects.len(),
                sv == self@.projects[i as int].supported,
                sv == strings_view(supported@),
                env@ == env_label_of(environment@),
                env@.len() > 0,
                forall|j: int| 0 <= j < k ==> sv[j] != env@,
            decreases supported@.len() - k,
        {
            if supported[k] == env {
                assert(sv[k as int] == env@);
                assert(self@.projects[i as int].supported.contains(env@));
                assert(env@ == env_label_of(environment@));
                assert(env@.len() > 0);
                return Ok(env);
            }
            k = k + 1;
        }
        let msg = String::from_str("environment `").concat(env.as_str()).concat("` is not supported by this project");
        Err(AppError::Validation(msg))
    }

    /// Sets a project's base environment and clears its overrides.
    pub fn set_base_environment_rows(&mut self, project_id: &str, environment: &str) -> (res: Result<(), AppError>)
        ensures
            reports(res, old(self)@.set_base_environment(project_id@, environment@), old(self)@, final(self)@),
    {
        let i = match self.project_position(project_id) {
            None => { return Err(AppError::NotFound(String::from_str("project not found"))); },
            Some(i) => i,
        };
        let env = match self.supported_label(i, environment) {
            Ok(e) => e,
            Err(e) => { return Err(e); },
        };
        self.set_project_base(project_id, &env);
        self.drop_project_overrides(project_id);
        Ok(())
    }

    /// Sets or clears the override of an entry.
    pub fn set_entry_override_rows(&mut self, project_id: &str, entry_id: &str, environment: &Option<String>) -> (res: Result<(), AppError>)
        ensures
            reports(res, old(self)@.set_entry_override(project_id@, entry_id@, opt_view(*environment)), old(self)@, final(self)@),
    {
        let i = match self.project_position(project_id) {
            None => { return Err(AppError::NotFound(String::from_str("project not found"))); },
            Some(i) => i,
        };
        if self.entry_position(entry_id, project_id).is_none() {
            return Err(AppError::NotFound(String::from_str("entry not found")));
        }
        match environment {
            Some(e) => {
                let env = match self.supported_label(i, e.as_str()) {
                    Ok(v) => v,
                    Err(err) => { return Err(err); },
                };
                if env == self.projects[i].base_environment {
                    self.drop_override(project_id, entry_id);
                } else {
                    self.put_override(project_id, entry_id, &env);
                }
            },
            None => {
                self.drop_override(project_id, entry_id);
            },
        }
        Ok(())
    }

    /// Deletes an entry of a project.
    pub fn delete_entry_rows(&mut self, project_id: &str, entry_id: &str) -> (res: Result<(), AppError>)
        ensures
            reports(res, old(self)@.delete_entry(project_id@, entry_id@), old(self)@, final(self)@),
    {
        if self.entry_position(entry_id, project_id).is_none() {
            return Err(AppError::NotFound(String::from_str("entry not found")));
        }
        self.drop_entry(entry_id, project_id);
        Ok(())
    }

    /// Whether a project other than `except` (when given) is named `name`.
    fn name_taken(&self, name: &String, except: &str, has_except: bool) -> (r: bool)
        ensures
            r == self@.name_taken(name@, if has_except { Some(except@) } else { None }),
    {
        let ghost ex: Option<Seq<char>> = if has_except { Some(except@) } else { None };
        let mut i: usize = 0;
        while i < self.projects.len()
            invariant
                i <= self@.projects.len(),
                ex == (if has_except { Some(except@) } else { None::<Seq<char>> }),
                forall|j: int| 0 <= j < i ==> !(#[trigger] self@.projects[j].name == name@ && ex != Some(self@.projects[j].id)),
            decreases self@.projects.len() - i,
        {
            if self.projects[i].name == *name && !(has_except && str_eq(self.projects[i].id.as_str(), except)) {
                assert(self@.projects[i as int].name == name@);
                return true;
            }
            i = i + 1;
        }
        false
    }

    /// Whether a project has the given id.
    fn id_taken(&self, id: &str) -> (r: bool)
        ensures
            r == exists|j: int| 0 <= j < self@.projects.len() && #[trigger] self@.projects[j].id == id@,
    {
        match self.project_position(id) {
            Some(i) => {
                proof { lemma_first_index(self@.projects, project_has_id(id@)); }
                true
            },
            None => {
                proof { lemma_first_index(self@.projects, project_has_id(id@)); }
                assert forall|j: int| 0 <= j < self@.projects.len() implies self@.projects[j].id != id@ by {
                    assert(!project_has_id(id@)(self@.projects[j]));
                }
                false
            },
        }
    }

    /// Adds a project with the given id and makes it the active one.
    pub fn create_project_rows(&mut self, input: CreateProjectInput, id: &str) -> (res: Result<(), AppError>)
        ensures
            reports(res, old(self)@.create_project(input.name@, input.supported_environments@, opt_view(input.working_directory), id@), old(self)@, final(self)@),
    {
        let ghost envs_in = input.supported_environments@;
        let name = match normalize_project_name(input.name.as_str()) {
            Ok(n) => n,
            Err(e) => { return Err(e); },
        };
        let supported = match normalize_supported_environments(input.supported_environments) {
            Ok(v) => v,
            Err(e) => { return Err(e); },
        };
        let working_directory = normalize_optional_text(input.working_directory);
        if self.id_taken(id) {
            return Err(AppError::Sql(String::from_str("UNIQUE constraint failed: projects.id")));
        }
        if self.name_taken(&name, id, false) {
            return Err(AppError::Sql(String::from_str("UNIQUE constraint failed: projects.name")));
        }
        assert(strings_view(supported@).len() > 0) by {
            assert(strings_view(supported@) == dedup(env_labels(envs_in)));
        }
        let base = supported[0].clone();
        let row = ProjectRow {
            id: String::from_str(id),
            name,
            working_directory,
            supported_environments: supported,
            base_environment: base,
        };
        self.projects.push(row);
        self.active_project_id = Some(String::from_str(id));
        assert(self@.projects =~= old(self)@.projects.push(row@));
        Ok(())
    }

    /// Sets the name, and optionally the working directory and environments,
    /// of the projects with the given id.
    fn rewrite_projects(&mut self, pid: &str, name: &String, update: Option<(&Option<String>, &Vec<String>)>)
        ensures
            final(self)@ == (StoreV {
                projects: old(self)@.projects.map_values(|p: ProjectV| if p.id == pid@ {
                    match update {
                        Some(u) => ProjectV { name: name@, working_directory: opt_view(*u.0), supported: strings_view(u.1@), ..p },
                        None => ProjectV { name: name@, ..p },
                    }
                } else {
                    p
                }),
                ..old(self)@
            }),
    {
        let ghost ps = old(self)@.projects;
        let ghost f = |p: ProjectV| if p.id == pid@ {
            match update {
                Some(u) => ProjectV { name: name@, working_directory: opt_view(*u.0), supported: strings_view(u.1@), ..p },
                None => ProjectV { name: name@, ..p },
            }
        } else {
            p
        };
        let mut out: Vec<ProjectRow> = Vec::new();
        let rest = &self.projects;
        let mut i: usize = 0;
        while i < rest.len()
            invariant
                i <= rest@.len(),
                rest@.map_values(|r: ProjectRow| r@) == ps,
                out@.map_values(|r: ProjectRow| r@) == ps.take(i as int).map_values(f),
                f == (|p: ProjectV| if p.id == pid@ {
                    match update {
                        Some(u) => ProjectV { name: name@, working_directory: opt_view(*u.0), supported: strings_view(u.1@), ..p },
                        None => ProjectV { name: name@, ..p },
                    }
                } else {
                    p
                }),
            decreases rest@.len() - i,
        {
            let ghost before = out@.map_values(|r: ProjectRow| r@);
            let row = if str_eq(rest[i].id.as_str(), pid) {
                match update {
                    Some((wd, envs)) => ProjectRow {
                        id: rest[i].id.clone(),
                        name: name.clone(),
                        working_directory: copy_opt(wd),
                        supported_environments: copy_strings(envs),
                        base_environment: rest[i].base_environment.clone(),
                    },
                    None => ProjectRow {
                        id: rest[i].id.clone(),
                        name: name.clone(),
                        working_directory: copy_opt(&rest[i].working_directory),
                        supported_environments: copy_strings(&rest[i].supported_environments),
                        base_environment: rest[i].base_environment.clone(),
                    },
                }
            } else {
                rest[i].copy()
            };
            assert(row@ == f(ps[i as int]));
            out.push(row);
            assert(out@.map_values(|r: ProjectRow| r@) =~= before.push(row@));
            assert(ps.take(i + 1).map_values(f) =~= ps.take(i as int).map_values(f).push(f(ps[i as int])));
            i = i + 1;
        }
        assert(ps.take(ps.len() as int) =~= ps);
        self.projects = out;
    }

    /// Renames a project.
    pub fn rename_project_rows(&mut self, project_id: &str, name: &str) -> (res: Result<(), AppError>)
        ensures
            reports(res, old(self)@.rename_project(project_id@, name@), old(self)@, final(self)@),
    {
        let name = match normalize_project_name(name) {
            Ok(n) => n,
            Err(e) => { return Err(e); },
        };
        if self.project_position(project_id).is_none() {
            return Err(AppError::NotFound(String::from_str("project not found")));
        }
        if self.name_taken(&name, project_id, true) {
            return Err(AppError::Sql(String::from_str("UNIQUE constraint failed: projects.name")));
        }
        self.rewrite_projects(project_id, &name, None);
        assert(self@.projects =~= old(self)@.projects.map_values(|p: ProjectV| if p.id == project_id@ { ProjectV { name: name@, ..p } } else { p }));
        Ok(())
    }

    /// Updates a project's name, environments and working directory.
    pub fn update_project_rows(&mut self, input: UpdateProjectInput) -> (res: Result<(), AppError>)
        ensures
            reports(res, old(self)@.update_project(input.project_id@, input.name@, input.supported_environments@, opt_view(input.working_directory)), old(self)@, final(self)@),
    {
        let ghost envs_in = input.supported_environments@;
        let name = match normalize_project_name(input.name.as_str()) {
            Ok(n) => n,
            Err(e) => { return Err(e); },
        };
        let supported = match normalize_supported_environments(input.supported_environments) {
            Ok(v) => v,
            Err(e) => { return Err(e); },
        };
        let working_directory = normalize_optional_text(input.working_directory);
        let i = match self.project_position(input.project_id.as_str()) {
            None => { return Err(AppError::NotFound(String::from_str("project not found"))); },
            Some(i) => i,
        };
        let ghost labels = dedup(env_labels(envs_in));
        let ghost existing = self@.projects[i as int].supported;
        let ghost pred = |e: Seq<char>| !labels.contains(e);
        assert(strings_view(supported@) == labels);
        let n = self.projects[i].supported_environments.len();
        let mut k: usize = 0;
        while k < n
            invariant
                k <= n == existing.len(),
                i < self@.projects.len(),
                self@ == old(self)@,
                i as int == old(self)@.project_index(input.project_id@),
                StoreV::project_fields_fault(input.name@, envs_in) is None,
                labels == dedup(env_labels(envs_in)),
                envs_in == input.supported_environments@,
                existing == self@.projects[i as int].supported,
                strings_view(supported@) == labels,
                pred == (|e: Seq<char>| !labels.contains(e)),
                first_index(existing.take(k as int), pred) < 0,
            decreases n - k,
        {
            proof { lemma_first_index_take(existing, k as int, pred); }
            let environment = &self.projects[i].supported_environments[k];
            if !crate::normalize::contains_string(&supported, environment) {
                proof { lemma_first_index_prefix(existing, k + 1, pred); }
                let msg = String::from_str("removing supported environment `").concat(environment.as_str()).concat("` is not supported yet");
                assert(existing[k as int] == environment@);
                assert(first_index(existing, pred) == k);
                assert(old(self)@.update_project(input.project_id@, input.name@, envs_in, opt_view(input.working_directory))
                    == Err::<StoreV, Fault>(Fault::Validation("removing supported environment `"@ + existing[k as int] + "` is not supported yet"@)));
                let err = AppError::Validation(msg);
                assert(is_validation(err, "removing supported environment `"@ + existing[k as int] + "` is not supported yet"@));
                assert(msg@ == "removing supported environment `"@ + existing[k as int] + "` is not supported yet"@);
                return Err(err);
            }
            k = k + 1;
        }
        assert(existing.take(n as int) =~= existing);
        if self.name_taken(&name, input.project_id.as_str(), true) {
            return Err(AppError::Sql(String::from_str("UNIQUE constraint failed: projects.name")));
        }
        self.rewrite_projects(input.project_id.as_str(), &name, Some((&working_directory, &supported)));
        assert(self@.projects =~= old(self)@.projects.map_values(|p: ProjectV| if p.id == input.project_id@ {
            ProjectV { name: name@, working_directory: opt_view(working_directory), supported: labels, ..p }
        } else {
            p
        }));
        Ok(())
    }

    /// The folded names of the given projects, as sort keys.
    fn name_keys_of(projects: &Vec<ProjectRow>) -> (keys: Vec<Vec<char>>)
        ensures
            keys_view(keys@) == StoreV::name_keys(projects@.map_values(|r: ProjectRow| r@)),
    {
        let ghost ps = projects@.map_values(|r: ProjectRow| r@);
        let mut keys: Vec<Vec<char>> = Vec::new();
        let mut i: usize = 0;
        while i < projects.len()
            invariant
                i <= projects@.len(),
                ps == projects@.map_values(|r: ProjectRow| r@),
                keys_view(keys@) =~= StoreV::name_keys(ps.take(i as int)),
            decreases projects@.len() - i,
        {
            let k = lowered(projects[i].name.as_str());
            keys.push(k);
            assert(StoreV::name_keys(ps.take(i + 1)) =~= StoreV::name_keys(ps.take(i as int)).push(k@));
            i = i + 1;
        }
        assert(ps.take(ps.len() as int) =~= ps);
        keys
    }

    /// Deletes a project with everything that belongs to it.
    pub fn delete_project_rows(&mut self, project_id: &str) -> (res: Result<(), AppError>)
        ensures
            reports(res, old(self)@.delete_project(project_id@), old(self)@, final(self)@),
            res is Ok && old(self)@.active != Some(project_id@) ==> final(self)@.active == old(self)@.active,
            res is Ok && old(self)@.active == Some(project_id@)
                && (exists|j: int| 0 <= j < old(self)@.projects.len() && (#[trigger] old(self)@.projects[j]).id != project_id@) ==> {
                &&& final(self)@.active is Some
                &&& exists|k: int| 0 <= k < old(self)@.projects.len() && (#[trigger] old(self)@.projects[k]).id == final(self)@.active->Some_0
                    && old(self)@.projects[k].id != project_id@
                    && forall|j: int| 0 <= j < old(self)@.projects.len() && (#[trigger] old(self)@.projects[j]).id != project_id@
                        ==> !lex_lt(lower_chars(old(self)@.projects[j].name), lower_chars(old(self)@.projects[k].name))
            },
    {
        if self.project_position(project_id).is_none() {
            return Err(AppError::NotFound(String::from_str("project not found")));
        }
        let ghost old_v = self@;
        let ghost pid = project_id@;
        // the ids of the project's entries
        let ghost es = old_v.entries;
        let mut gone: Vec<String> = Vec::new();
        let mut i: usize = 0;
        while i < self.entries.len()
            invariant
                i <= es.len(),
                self@ == old_v,
                es == old_v.entries,
                pid == project_id@,
                strings_view(gone@) == entry_ids(es.take(i as int).filter(entry_of_project(pid))),
            decreases es.len() - i,
        {
            proof { lemma_filter_take(es, i as int, entry_of_project(pid)); }
            if str_eq(self.entries[i].project_id.as_str(), project_id) {
                let ghost before = strings_view(gone@);
                let ghost prev = es.take(i as int).filter(entry_of_project(pid));
                gone.push(self.entries[i].id.clone());
                assert(entry_of_project(pid)(es[i as int]));
                assert(es.take(i + 1).filter(entry_of_project(pid)) == prev.push(es[i as int]));
                assert(entry_ids(prev.push(es[i as int])) =~= entry_ids(prev).push(es[i as int].id));
                assert(strings_view(gone@) =~= before.push(es[i as int].id));
            }
            i = i + 1;
        }
        proof { lemma_filter_all(es, entry_of_project(pid)); }
        let ghost g = strings_view(gone@);
        assert(g == old_v.entry_ids_of(pid));
        // projects
        let ghost ps = old_v.projects;
        let mut projects: Vec<ProjectRow> = Vec::new();
        let mut i: usize = 0;
        while i < self.projects.len()
            invariant
                i <= ps.len(),
                self@ == old_v,
                ps == old_v.projects,
                pid == project_id@,
                projects@.map_values(|r: ProjectRow| r@) == ps.take(i as int).filter(project_not_id(pid)),
            decreases ps.len() - i,
        {
            proof { lemma_filter_take(ps, i as int, project_not_id(pid)); }
            if !str_eq(self.projects[i].id.as_str(), project_id) {
                projects.push(self.projects[i].copy());
                assert(projects@.map_values(|r: ProjectRow| r@) =~= ps.take(i as int).filter(project_not_id(pid)).push(ps[i as int]));
            }
            i = i + 1;
        }
        proof { lemma_filter_all(ps, project_not_id(pid)); }
        // entries
        let mut entries: Vec<EntryRow> = Vec::new();
        let mut i: usize = 0;
        while i < self.entries.len()
            invariant
                i <= es.len(),
                self@ == old_v,
                es == old_v.entries,
                pid == project_id@,
                entries@.map_values(|r: EntryRow| r@) == es.take(i as int).filter(entry_not_of_project(pid)),
            decreases es.len() - i,
        {
            proof { lemma_filter_take(es, i as int, entry_not_of_project(pid)); }
            if !str_eq(self.entries[i].project_id.as_str(), project_id) {
                entries.push(self.entries[i].copy());
                assert(entries@.map_values(|r: EntryRow| r@) =~= es.take(i as int).filter(entry_not_of_project(pid)).push(es[i as int]));
            }
            i = i + 1;
        }
        proof { lemma_filter_all(es, entry_not_of_project(pid)); }
        // values
        let ghost vs = old_v.values;
        let mut values: Vec<ValueRow> = Vec::new();
        let mut i: usize = 0;
        while i < self.entry_values.len()
            invariant
                i <= vs.len(),
                self@ == old_v,
                vs == old_v.values,
                g == strings_view(gone@),
                values@.map_values(|r: ValueRow| r@) == vs.take(i as int).filter(value_not_in(g)),
            decreases vs.len() - i,
        {
            proof { lemma_filter_take(vs, i as int, value_not_in(g)); }
            if !crate::normalize::contains_string(&gone, &self.entry_values[i].entry_id) {
                values.push(self.entry_values[i].copy());
                assert(values@.map_values(|r: ValueRow| r@) =~= vs.take(i as int).filter(value_not_in(g)).push(vs[i as int]));
            }
            i = i + 1;
        }
        proof { lemma_filter_all(vs, value_not_in(g)); }
        // overrides
        let ghost os = old_v.overrides;
        let mut overrides: Vec<OverrideRow> = Vec::new();
        let mut i: usize = 0;
        while i < self.entry_overrides.len()
            invariant
                i <= os.len(),
                self@ == old_v,
                os == old_v.overrides,
                g == strings_view(gone@),
                pid == project_id@,
                overrides@.map_values(|r: OverrideRow| r@) == os.take(i as int).filter(override_not_in(pid, g)),
            decreases os.len() - i,
        {
            proof { lemma_filter_take(os, i as int, override_not_in(pid, g)); }
            if !str_eq(self.entry_overrides[i].project_id.as_str(), project_id)
                && !crate::normalize::contains_string(&gone, &self.entry_overrides[i].entry_id) {
                overrides.push(self.entry_overrides[i].copy());
                assert(overrides@.map_values(|r: OverrideRow| r@) =~= os.take(i as int).filter(override_not_in(pid, g)).push(os[i as int]));
            }
            i = i + 1;
        }
        proof { lemma_filter_all(os, override_not_in(pid, g)); }
        // the active project
        let was_active = match &self.active_project_id {
            Some(a) => str_eq(a.as_str(), project_id),
            None => false,
        };
        if was_active {
            let keys = Self::name_keys_of(&projects);
            let order = stable_sort(&keys);
            if order.len() > 0 {
                assert(positions(order@)[0] == order@[0] as int);
                self.active_project_id = Some(projects[order[0]].id.clone());
            } else {
                self.active_project_id = None;
            }
        }
        self.projects = projects;
        self.entries = entries;
        self.entry_values = values;
        self.entry_overrides = overrides;
        proof { lemma_delete_project_next_active(old_v, pid); }
        Ok(())
    }

    /// A project's overrides, by entry id.
    fn project_override_pairs(&self, pid: &str) -> (r: Vec<(String, String)>)
        ensures
            pairs_view(r@) == self@.project_overrides(pid@),
    {
        let ghost all = self@.overrides;
        let ghost p = override_of_project(pid@);
        let mut os: Vec<OverrideRow> = Vec::new();
        let mut i: usize = 0;
        while i < self.entry_overrides.len()
            invariant
                i <= all.len(),
                all == self@.overrides,
                p == override_of_project(pid@),
                os@.map_values(|r: OverrideRow| r@) == all.take(i as int).filter(p),
            decreases all.len() - i,
        {
            proof { lemma_filter_take(all, i as int, p); }
            if str_eq(self.entry_overrides[i].project_id.as_str(), pid) {
                os.push(self.entry_overrides[i].copy());
                assert(os@.map_values(|r: OverrideRow| r@) =~= all.take(i as int).filter(p).push(all[i as int]));
            }
            i = i + 1;
        }
        proof { lemma_filter_all(all, p); }
        let ghost osv = os@.map_values(|r: OverrideRow| r@);
        let mut keys: Vec<Vec<char>> = Vec::new();
        let mut i: usize = 0;
        while i < os.len()
            invariant
                i <= os@.len(),
                osv == os@.map_values(|r: OverrideRow| r@),
                keys_view(keys@) =~= override_keys(osv.take(i as int)),
            decreases os@.len() - i,
        {
            let k = chars_of(os[i].entry_id.as_str());
            keys.push(k);
            assert(override_keys(osv.take(i + 1)) =~= override_keys(osv.take(i as int)).push(k@));
            i = i + 1;
        }
        assert(osv.take(osv.len() as int) =~= osv);
        let order = stable_sort(&keys);
        let ghost o = positions(order@);
        let mut r: Vec<(String, String)> = Vec::new();
        let mut k: usize = 0;
        while k < order.len()
            invariant
                k <= order@.len(),
                o == positions(order@),
                osv == os@.map_values(|r: OverrideRow| r@),
                forall|j: int| 0 <= j < order@.len() ==> order@[j] < os@.len(),
                pairs_view(r@) =~= o.take(k as int).map_values(|j: int| (osv[j].entry_id, osv[j].environment)),
            decreases order@.len() - k,
        {
            let j = order[k];
            let ghost before = pairs_view(r@);
            let pair = (os[j].entry_id.clone(), os[j].environment_name.clone());
            r.push(pair);
            assert(pairs_view(r@) =~= before.push((osv[j as int].entry_id, osv[j as int].environment)));
            assert(o.take(k + 1) =~= o.take(k as int).push(j as int));
            k = k + 1;
        }
        assert(o.take(o.len() as int) =~= o);
        assert(pairs_view(r@) =~= arrange(osv, o).map_values(|ov: OverrideV| (ov.entry_id, ov.environment)));
        r
    }

    /// The environments for which an entry has a value, by environment.
    fn entry_value_records(&self, eid: &str) -> (r: Vec<EntryValueRecord>)
        ensures
            r@.map_values(|v: EntryValueRecord| v.environment@) == self@.value_envs(eid@),
    {
        let ghost all = self@.values;
        let ghost p = value_of_entry(eid@);
        let mut vs: Vec<ValueRow> = Vec::new();
        let mut i: usize = 0;
        while i < self.entry_values.len()
            invariant
                i <= all.len(),
                all == self@.values,
                p == value_of_entry(eid@),
                vs@.map_values(|r: ValueRow| r@) == all.take(i as int).filter(p),
            decreases all.len() - i,
        {
            proof { lemma_filter_take(all, i as int, p); }
            if str_eq(self.entry_values[i].entry_id.as_str(), eid) {
                vs.push(self.entry_values[i].copy());
                assert(vs@.map_values(|r: ValueRow| r@) =~= all.take(i as int).filter(p).push(all[i as int]));
            }
            i = i + 1;
        }
        proof { lemma_filter_all(all, p); }
        let ghost vsv = vs@.map_values(|r: ValueRow| r@);
        let mut keys: Vec<Vec<char>> = Vec::new();
        let mut i: usize = 0;
        while i < vs.len()
            invariant
                i <= vs@.len(),
                vsv == vs@.map_values(|r: ValueRow| r@),
                keys_view(keys@) =~= value_keys(vsv.take(i as int)),
            decreases vs@.len() - i,
        {
            let k = lowered(vs[i].environment_name.as_str());
            keys.push(k);
            assert(value_keys(vsv.take(i + 1)) =~= value_keys(vsv.take(i as int)).push(k@));
            i = i + 1;
        }
        assert(vsv.take(vsv.len() as int) =~= vsv);
        let order = stable_sort(&keys);
        let ghost o = positions(order@);
        let mut r: Vec<EntryValueRecord> = Vec::new();
        let mut k: usize = 0;
        while k < order.len()
            invariant
                k <= order@.len(),
                o == positions(order@),
                vsv == vs@.map_values(|r: ValueRow| r@),
                forall|j: int| 0 <= j < order@.len() ==> order@[j] < vs@.len(),
                r@.map_values(|v: EntryValueRecord| v.environment@) =~= o.take(k as int).map_values(|j: int| vsv[j].environment),
            decreases order@.len() - k,
        {
            let j = order[k];
            let ghost before = r@.map_values(|v: EntryValueRecord| v.environment@);
            r.push(EntryValueRecord { environment: vs[j].environment_name.clone() });
            assert(r@.map_values(|v: EntryValueRecord| v.environment@) =~= before.push(vsv[j as int].environment));
            assert(o.take(k + 1) =~= o.take(k as int).push(j as int));
            k = k + 1;
        }
        assert(o.take(o.len() as int) =~= o);
        assert(r@.map_values(|v: EntryValueRecord| v.environment@) =~= arrange(vsv, o).map_values(|v: ValueV| v.environment));
        r
    }

    /// A project's entries, by name.
    fn project_entry_records(&self, pid: &str) -> (r: Vec<EntryRecord>)
        ensures
            r@.map_values(|e: EntryRecord| e@) == self@.project_entries(pid@),
    {
        let ghost all = self@.entries;
        let ghost p = entry_of_project(pid@);
        let mut es: Vec<EntryRow> = Vec::new();
        let mut i: usize = 0;
        while i < self.entries.len()
            invariant
                i <= all.len(),
                all == self@.entries,
                p == entry_of_project(pid@),
                es@.map_values(|r: EntryRow| r@) == all.take(i as int).filter(p),
            decreases all.len() - i,
        {
            proof { lemma_filter_take(all, i as int, p); }
            if str_eq(self.entries[i].project_id.as_str(), pid) {
                es.push(self.entries[i].copy());
                assert(es@.map_values(|r: EntryRow| r@) =~= all.take(i as int).filter(p).push(all[i as int]));
            }
            i = i + 1;
        }
        proof { lemma_filter_all(all, p); }
        let ghost esv = es@.map_values(|r: EntryRow| r@);
        let mut keys: Vec<Vec<char>> = Vec::new();
        let mut i: usize = 0;
        while i < es.len()
            invariant
                i <= es@.len(),
                esv == es@.map_values(|r: EntryRow| r@),
                keys_view(keys@) =~= entry_keys(esv.take(i as int)),
            decreases es@.len() - i,
        {
            let k = lowered(es[i].name.as_str());
            keys.push(k);
            assert(entry_keys(esv.take(i + 1)) =~= entry_keys(esv.take(i as int)).push(k@));
            i = i + 1;
        }
        assert(esv.take(esv.len() as int) =~= esv);
        let order = stable_sort(&keys);
        let ghost o = positions(order@);
        let mut r: Vec<EntryRecord> = Vec::new();
        let mut k: usize = 0;
        while k < order.len()
            invariant
                k <= order@.len(),
                o == positions(order@),
                esv == es@.map_values(|r: EntryRow| r@),
                forall|j: int| 0 <= j < order@.len() ==> order@[j] < es@.len(),
                r@.map_values(|e: EntryRecord| e@) =~= o.take(k as int).map_values(|j: int| self@.entry_record(esv[j])),
            decreases order@.len() - k,
        {
            let j = order[k];
            let record = EntryRecord {
                id: es[j].id.clone(),
                name: es[j].name.clone(),
                category: copy_opt(&es[j].category),
                description: copy_opt(&es[j].description),
                values: self.entry_value_records(es[j].id.as_str()),
            };
            assert(record@ == self@.entry_record(esv[j as int]));
            let ghost before = r@.map_values(|e: EntryRecord| e@);
            r.push(record);
            assert(r@.map_values(|e: EntryRecord| e@) =~= before.push(record@));
            assert(o.take(k + 1) =~= o.take(k as int).push(j as int));
            k = k + 1;
        }
        assert(o.take(o.len() as int) =~= o);
        assert(r@.map_values(|e: EntryRecord| e@) =~= arrange(esv, o).map_values(|e: EntryV| self@.entry_record(e)));
        r
    }

    /// The record of the project at position `i`.
    fn project_record(&self, i: usize, with_entries: bool) -> (r: ProjectRecord)
        requires
            i < self@.projects.len(),
        ensures
            r@ == self@.project_record(self@.projects[i as int], with_entries),
    {
        let row = &self.projects[i];
        let entries: Vec<EntryRecord> = if with_entries {
            self.project_entry_records(row.id.as_str())
        } else {
            let none: Vec<EntryRecord> = Vec::new();
            assert(none@.map_values(|e: EntryRecord| e@) =~= Seq::<EntryRecordV>::empty());
            none
        };
        let r = ProjectRecord {
            id: row.id.clone(),
            name: row.name.clone(),
            working_directory: copy_opt(&row.working_directory),
            supported_environments: copy_strings(&row.supported_environments),
            active_base_environment: row.base_environment.clone(),
            entry_overrides: self.project_override_pairs(row.id.as_str()),
            entries,
        };
        r
    }

    /// The snapshot the app shows, locked or not.
    fn snapshot(&self, locked: bool) -> (res: AppSnapshot)
        ensures
            res@ == self@.snapshot(locked),
    {
        let keys = Self::name_keys_of(&self.projects);
        let order = stable_sort(&keys);
        let ghost o = positions(order@);
        assert(o == self@.project_order());
        let mut projects: Vec<ProjectRecord> = Vec::new();
        let mut k: usize = 0;
        while k < order.len()
            invariant
                k <= order@.len(),
                o == positions(order@),
                forall|j: int| 0 <= j < order@.len() ==> order@[j] < self@.projects.len(),
                projects@.map_values(|p: ProjectRecord| p@) =~= o.take(k as int).map_values(|j: int| self@.project_record(self@.projects[j], !locked)),
            decreases order@.len() - k,
        {
            let j = order[k];
            let record = self.project_record(j, !locked);
            let ghost before = projects@.map_values(|p: ProjectRecord| p@);
            projects.push(record);
            assert(projects@.map_values(|p: ProjectRecord| p@) =~= before.push(record@));
            assert(o.take(k + 1) =~= o.take(k as int).push(j as int));
            k = k + 1;
        }
        assert(o.take(o.len() as int) =~= o);
        assert(projects@.map_values(|p: ProjectRecord| p@) =~= arrange(self@.projects, o).map_values(|p: ProjectV| self@.project_record(p, !locked)));
        let selected = match &self.active_project_id {
            Some(a) => match self.project_position(a.as_str()) {
                Some(_) => Some(a.clone()),
                None => None,
            },
            None => None,
        };
        let active = match selected {
            Some(a) => Some(a),
            None => if order.len() > 0 {
                Some(self.projects[order[0]].id.clone())
            } else {
                None
            },
        };
        AppSnapshot { locked, active_project_id: active, projects }
    }

    /// The snapshot of the unlocked app: every project with its entries.
    pub fn load_snapshot(&self) -> (res: AppSnapshot)
        ensures
            res@ == self@.snapshot(false),
    {
        self.snapshot(false)
    }

    /// The snapshot of the locked app: projects without their entries.
    pub fn load_locked_snapshot(&self) -> (res: AppSnapshot)
        ensures
            res@ == self@.snapshot(true),
    {
        self.snapshot(true)
    }

    /// A copy of the store.
    pub fn copy(&self) -> (r: Store)
        ensures
            r@ == self@,
    {
        let mut projects: Vec<ProjectRow> = Vec::new();
        let mut i: usize = 0;
        while i < self.projects.len()
            invariant
                i <= self.projects@.len(),
                projects@.map_values(|r: ProjectRow| r@) =~= self@.projects.take(i as int),
            decreases self.projects@.len() - i,
        {
            let row = self.projects[i].copy();
            let ghost before = projects@.map_values(|r: ProjectRow| r@);
            projects.push(row);
            assert(projects@.map_values(|r: ProjectRow| r@) =~= before.push(self@.projects[i as int]));
            assert(self@.projects.take(i + 1) =~= self@.projects.take(i as int).push(self@.projects[i as int]));
            i = i + 1;
        }
        let mut entries: Vec<EntryRow> = Vec::new();
        let mut i: usize = 0;
        while i < self.entries.len()
            invariant
                i <= self.entries@.len(),
                entries@.map_values(|r: EntryRow| r@) =~= self@.entries.take(i as int),
            decreases self.entries@.len() - i,
        {
            let row = self.entries[i].copy();
            let ghost before = entries@.map_values(|r: EntryRow| r@);
            entries.push(row);
            assert(entries@.map_values(|r: EntryRow| r@) =~= before.push(self@.entries[i as int]));
            assert(self@.entries.take(i + 1) =~= self@.entries.take(i as int).push(self@.entries[i as int]));
            i = i + 1;
        }
        let mut values: Vec<ValueRow> = Vec::new();
        let mut i: usize = 0;
        while i < self.entry_values.len()
            invariant
                i <= self.entry_values@.len(),
                values@.map_values(|r: ValueRow| r@) =~= self@.values.take(i as int),
            decreases self.entry_values@.len() - i,
        {
            let row = self.entry_values[i].copy();
            let ghost before = values@.map_values(|r: ValueRow| r@);
            values.push(row);
            assert(values@.map_values(|r: ValueRow| r@) =~= before.push(self@.values[i as int]));
            assert(self@.values.take(i + 1) =~= self@.values.take(i as int).push(self@.values[i as int]));
            i = i + 1;
        }
        let mut overrides: Vec<OverrideRow> = Vec::new();
        let mut i: usize = 0;
        while i < self.entry_overrides.len()
            invariant
                i <= self.entry_overrides@.len(),
                overrides@.map_values(|r: OverrideRow| r@) =~= self@.overrides.take(i as int),
            decreases self.entry_overrides@.len() - i,
        {
            let row = self.entry_overrides[i].copy();
            let ghost before = overrides@.map_values(|r: OverrideRow| r@);
            overrides.push(row);
            assert(overrides@.map_values(|r: OverrideRow| r@) =~= before.push(self@.overrides[i as int]));
            assert(self@.overrides.take(i + 1) =~= self@.overrides.take(i as int).push(self@.overrides[i as int]));
            i = i + 1;
        }
        assert(self@.projects.take(self@.projects.len() as int) =~= self@.projects);
        assert(self@.entries.take(self@.entries.len() as int) =~= self@.entries);
        assert(self@.values.take(self@.values.len() as int) =~= self@.values);
        assert(self@.overrides.take(self@.overrides.len() as int) =~= self@.overrides);
        Store {
            projects,
            entries,
            entry_values: values,
            entry_overrides: overrides,
            active_project_id: copy_opt(&self.active_project_id),
        }
    }

    /// Makes a project the active one.
    pub fn select_project_rows(&mut self, project_id: &str) -> (res: Result<(), AppError>)
        ensures
            reports(res, old(self)@.select_project(project_id@), old(self)@, final(self)@),
    {
        match self.project_position(project_id) {
            None => Err(AppError::NotFound(String::from_str("project not found"))),
            Some(_) => {
                self.active_project_id = Some(String::from_str(project_id));
                Ok(())
            },
        }
    }
}

} // verus!
