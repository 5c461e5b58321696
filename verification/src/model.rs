//! The values exchanged with the app and the CLI: snapshots of the store,
//! the inputs of each store operation, and the results of previews.

use vstd::prelude::*;
use crate::normalize::{opt_view, pairs_view, strings_view};

verus! {

/// What the app shows: whether it is locked, the active project, and every
/// project (with their entries when unlocked).
pub struct AppSnapshot {
    pub locked: bool,
    pub active_project_id: Option<String>,
    pub projects: Vec<ProjectRecord>,
}

impl AppSnapshot {
    /// The snapshot of a locked app that knows no project.
    pub fn locked() -> (res: Self)
        ensures
            res.locked,
            res.active_project_id is None,
            res.projects@.len() == 0,
    {
        AppSnapshot { locked: true, active_project_id: None, projects: Vec::new() }
    }
}

/// A project as the app shows it. `entry_overrides` lists each overridden
/// entry id with its environment, in increasing order of entry id.
pub struct ProjectRecord {
    pub id: String,
    pub name: String,
    pub working_directory: Option<String>,
    pub supported_environments: Vec<String>,
    pub active_base_environment: String,
    /// The overrides as (entry id, environment), by entry id: a sorted list
    /// rather than a `BTreeMap`, whose vstd specification needs keys known
    /// to obey `Ord`'s laws, which `String` is not.
    pub entry_overrides: Vec<(String, String)>,
    pub entries: Vec<EntryRecord>,
}

/// An entry as the app shows it, without its values.
pub struct EntryRecord {
    pub id: String,
    pub name: String,
    pub category: Option<String>,
    pub description: Option<String>,
    pub values: Vec<EntryValueRecord>,
}

/// An environment for which an entry has a value.
pub struct EntryValueRecord {
    pub environment: String,
}

/// A decrypted value of an entry.
pub struct DecryptedEntryValue {
    pub environment: String,
    pub value: String,
}

/// The effective environment of a project.
pub struct PreviewResult {
    pub project_id: String,
    pub project_name: String,
    pub preset_label: String,
    pub serialized: String,
    pub items: Vec<EffectiveEnvItem>,
}

/// One variable of a preview and the environment its value came from.
pub struct EffectiveEnvItem {
    pub entry_id: String,
    pub entry_name: String,
    pub source_environment: String,
}

/// All decrypted values of an entry.
pub struct EntryValuesResult {
    pub entry_id: String,
    pub values: Vec<DecryptedEntryValue>,
}

pub struct CreateProjectInput {
    pub name: String,
    pub supported_environments: Vec<String>,
    pub working_directory: Option<String>,
}

pub struct RenameProjectInput {
    pub project_id: String,
    pub name: String,
}

pub struct UpdateProjectInput {
    pub project_id: String,
    pub name: String,
    pub supported_environments: Vec<String>,
    pub working_directory: Option<String>,
}

pub struct DeleteProjectInput {
    pub project_id: String,
}

pub struct SelectProjectInput {
    pub project_id: String,
}

pub struct SetBaseEnvironmentInput {
    pub project_id: String,
    pub environment: String,
}

pub struct ResetOverridesInput {
    pub project_id: String,
}

pub struct SetEntryOverrideInput {
    pub project_id: String,
    pub entry_id: String,
    pub environment: Option<String>,
}

pub struct CreateEntryInput {
    pub project_id: String,
    pub name: String,
    pub category: Option<String>,
    pub description: Option<String>,
    pub values: Vec<EntryValueInput>,
}

pub struct UpdateEntryInput {
    pub project_id: String,
    pub entry_id: String,
    pub name: String,
    pub category: Option<String>,
    pub description: Option<String>,
    pub values: Vec<EntryValueInput>,
}

pub struct DeleteEntryInput {
    pub project_id: String,
    pub entry_id: String,
}

pub struct PreviewProjectInput {
    pub project_id: String,
}

pub struct GetEntryValuesInput {
    pub project_id: String,
    pub entry_id: String,
}

/// A value of an entry for one environment; `present == false` removes it.
pub struct EntryValueInput {
    pub environment: String,
    pub present: bool,
    pub value: String,
}

pub struct ImportEntriesInput {
    pub project_id: String,
    pub environment: String,
    pub entries: Vec<ImportEntryItem>,
}

pub struct ImportEntryItem {
    pub name: String,
    pub value: String,
}

pub struct ImportEntriesResult {
    pub snapshot: AppSnapshot,
    pub created: usize,
    pub updated: usize,
}

// ------------------------------------------------------------------ views

pub struct EntryRecordV {
    pub id: Seq<char>,
    pub name: Seq<char>,
    pub category: Option<Seq<char>>,
    pub description: Option<Seq<char>>,
    pub values: Seq<Seq<char>>,
}

pub struct ProjectRecordV {
    pub id: Seq<char>,
    pub name: Seq<char>,
    pub working_directory: Option<Seq<char>>,
    pub supported: Seq<Seq<char>>,
    pub base: Seq<char>,
    pub overrides: Seq<(Seq<char>, Seq<char>)>,
    pub entries: Seq<EntryRecordV>,
}

pub struct SnapshotV {
    pub locked: bool,
    pub active: Option<Seq<char>>,
    pub projects: Seq<ProjectRecordV>,
}

impl View for EntryRecord {
    type V = EntryRecordV;

    open spec fn view(&self) -> EntryRecordV {
        EntryRecordV {
            id: self.id@,
            name: self.name@,
            category: opt_view(self.category),
            description: opt_view(self.description),
            values: self.values@.map_values(|v: EntryValueRecord| v.environment@),
        }
    }
}

impl View for ProjectRecord {
    type V = ProjectRecordV;

    open spec fn view(&self) -> ProjectRecordV {
        ProjectRecordV {
            id: self.id@,
            name: self.name@,
            working_directory: opt_view(self.working_directory),
            supported: strings_view(self.supported_environments@),
            base: self.active_base_environment@,
            overrides: pairs_view(self.entry_overrides@),
            entries: self.entries@.map_values(|e: EntryRecord| e@),
        }
    }
}

impl View for AppSnapshot {
    type V = SnapshotV;

    open spec fn view(&self) -> SnapshotV {
        SnapshotV {
            locked: self.locked,
            active: opt_view(self.active_project_id),
            projects: self.projects@.map_values(|p: ProjectRecord| p@),
        }
    }
}

} // verus!
