//! The store's operations as the app calls them: each takes its input,
//! changes the store or reports why not, and answers with the snapshot the
//! app shows next.

use vstd::prelude::*;
use crate::entries::{normalized_values, sealed_pairs};
use crate::error::AppError;
use crate::import::import_reported;
use crate::model::{
    AppSnapshot, CreateEntryInput, CreateProjectInput, DeleteEntryInput, DeleteProjectInput, ImportEntriesInput,
    ImportEntriesResult, RenameProjectInput, ResetOverridesInput, SelectProjectInput, SetBaseEnvironmentInput,
    SetEntryOverrideInput, UpdateEntryInput, UpdateProjectInput,
};
use crate::normalize::{first_value_fault, opt_view};
use crate::store::{new_entity_id, reports, Store, StoreV};
use crate::consistent::{
    lemma_create_entry_consistent, lemma_create_project_consistent, lemma_delete_entry_consistent,
    lemma_delete_project_consistent, lemma_import_entries_consistent, lemma_rename_project_consistent,
    lemma_reset_overrides_consistent, lemma_select_project_consistent, lemma_set_base_environment_consistent,
    lemma_set_entry_override_consistent, lemma_set_entry_override_keeps_overrides_fit, lemma_update_entry_consistent,
    lemma_update_project_consistent,
};

verus! {

/// `res` answers with the snapshot of the unlocked app over `new`.
pub open spec fn answers(res: Result<AppSnapshot, AppError>, new: StoreV) -> bool {
    res matches Ok(s) ==> s@ == new.snapshot(false)
}

/// The counts of an import's answer.
pub open spec fn import_counts(res: Result<ImportEntriesResult, AppError>) -> Result<(usize, usize), AppError> {
    match res {
        Ok(r) => Ok((r.created, r.updated)),
        Err(e) => Err(e),
    }
}

impl Store {
    /// Creates a project with a fresh id and makes it the active one.
    pub fn create_project(&mut self, input: CreateProjectInput) -> (res: Result<AppSnapshot, AppError>)
        ensures
            exists|id: Seq<char>| id.len() == 36 && reports(res, #[trigger] old(self)@.create_project(input.name@,
                input.supported_environments@, opt_view(input.working_directory), id), old(self)@, final(self)@),
            answers(res, final(self)@),
            old(self)@.consistent() ==> final(self)@.consistent(),
    {
        let id = new_entity_id();
        let ghost before = self@;
        let ghost (name, envs, wd) = (input.name@, input.supported_environments@, opt_view(input.working_directory));
        let r = self.create_project_rows(input, id.as_str());
        proof {
            if before.consistent() && r is Ok {
                lemma_create_project_consistent(before, name, envs, wd, id@);
            }
        }
        match r {
            Ok(()) => Ok(self.load_snapshot()),
            Err(e) => Err(e),
        }
    }

    pub fn rename_project(&mut self, input: RenameProjectInput) -> (res: Result<AppSnapshot, AppError>)
        ensures
            reports(res, old(self)@.rename_project(input.project_id@, input.name@), old(self)@, final(self)@),
            answers(res, final(self)@),
            old(self)@.consistent() ==> final(self)@.consistent(),
    {
        let ghost before = self@;
        let r = self.rename_project_rows(input.project_id.as_str(), input.name.as_str());
        proof {
            if before.consistent() && r is Ok {
                lemma_rename_project_consistent(before, input.project_id@, input.name@);
            }
        }
        match r {
            Ok(()) => Ok(self.load_snapshot()),
            Err(e) => Err(e),
        }
    }

    pub fn update_project(&mut self, input: UpdateProjectInput) -> (res: Result<AppSnapshot, AppError>)
        ensures
            reports(res, old(self)@.update_project(input.project_id@, input.name@, input.supported_environments@,
                opt_view(input.working_directory)), old(self)@, final(self)@),
            answers(res, final(self)@),
            old(self)@.consistent() ==> final(self)@.consistent(),
    {
        let ghost before = self@;
        let ghost (pid, name, envs, wd) = (input.project_id@, input.name@, input.supported_environments@, opt_view(input.working_directory));
        let r = self.update_project_rows(input);
        proof {
            if before.consistent() && r is Ok {
                lemma_update_project_consistent(before, pid, name, envs, wd);
            }
        }
        match r {
            Ok(()) => Ok(self.load_snapshot()),
            Err(e) => Err(e),
        }
    }

    pub fn delete_project(&mut self, input: DeleteProjectInput) -> (res: Result<AppSnapshot, AppError>)
        ensures
            reports(res, old(self)@.delete_project(input.project_id@), old(self)@, final(self)@),
            answers(res, final(self)@),
            old(self)@.consistent() ==> final(self)@.consistent(),
    {
        let ghost before = self@;
        let r = self.delete_project_rows(input.project_id.as_str());
        proof {
            if before.consistent() && r is Ok {
                lemma_delete_project_consistent(before, input.project_id@);
            }
        }
        match r {
            Ok(()) => Ok(self.load_snapshot()),
            Err(e) => Err(e),
        }
    }

    pub fn select_project(&mut self, input: SelectProjectInput) -> (res: Result<AppSnapshot, AppError>)
        ensures
            reports(res, old(self)@.select_project(input.project_id@), old(self)@, final(self)@),
            answers(res, final(self)@),
            old(self)@.consistent() ==> final(self)@.consistent(),
    {
        let ghost before = self@;
        let r = self.select_project_rows(input.project_id.as_str());
        proof {
            if before.consistent() && r is Ok {
                lemma_select_project_consistent(before, input.project_id@);
            }
        }
        match r {
            Ok(()) => Ok(self.load_snapshot()),
            Err(e) => Err(e),
        }
    }

    pub fn set_base_environment(&mut self, input: SetBaseEnvironmentInput) -> (res: Result<AppSnapshot, AppError>)
        ensures
            reports(res, old(self)@.set_base_environment(input.project_id@, input.environment@), old(self)@, final(self)@),
            answers(res, final(self)@),
            old(self)@.consistent() ==> final(self)@.consistent(),
    {
        let ghost before = self@;
        let r = self.set_base_environment_rows(input.project_id.as_str(), input.environment.as_str());
        proof {
            if before.consistent() && r is Ok {
                lemma_set_base_environment_consistent(before, input.project_id@, input.environment@);
            }
        }
        match r {
            Ok(()) => Ok(self.load_snapshot()),
            Err(e) => Err(e),
        }
    }

    /// Removes every override of a project (of none, if it does not exist).
    pub fn reset_overrides(&mut self, input: ResetOverridesInput) -> (res: Result<AppSnapshot, AppError>)
        ensures
            final(self)@ == old(self)@.reset_overrides(input.project_id@),
            res is Ok,
            answers(res, final(self)@),
            old(self)@.consistent() ==> final(self)@.consistent(),
    {
        proof {
            if self@.consistent() {
                lemma_reset_overrides_consistent(self@, input.project_id@);
            }
        }
        self.drop_project_overrides(input.project_id.as_str());
        Ok(self.load_snapshot())
    }

    pub fn set_entry_override(&mut self, input: SetEntryOverrideInput) -> (res: Result<AppSnapshot, AppError>)
        ensures
            reports(res, old(self)@.set_entry_override(input.project_id@, input.entry_id@, opt_view(input.environment)),
                old(self)@, final(self)@),
            answers(res, final(self)@),
            old(self)@.consistent() ==> final(self)@.consistent(),
            old(self)@.overrides_fit() ==> final(self)@.overrides_fit(),
    {
        let ghost before = self@;
        let r = self.set_entry_override_rows(input.project_id.as_str(), input.entry_id.as_str(), &input.environment);
        proof {
            if before.consistent() && r is Ok {
                lemma_set_entry_override_consistent(before, input.project_id@, input.entry_id@, opt_view(input.environment));
            }
            if before.overrides_fit() {
                lemma_set_entry_override_keeps_overrides_fit(before, input.project_id@, input.entry_id@, opt_view(input.environment));
            }
        }
        match r {
            Ok(()) => Ok(self.load_snapshot()),
            Err(e) => Err(e),
        }
    }

    /// Creates an entry with a fresh id, its values encrypted under `key`.
    pub fn create_entry(&mut self, input: CreateEntryInput, key: &[u8]) -> (res: Result<AppSnapshot, AppError>)
        ensures
            exists|id: Seq<char>, pairs: Seq<(Seq<char>, Seq<char>)>, texts: Seq<Seq<char>>| {
                &&& id.len() == 36
                &&& (old(self)@.project_index(input.project_id@) >= 0
                    && first_value_fault(input.values@, old(self)@.projects[old(self)@.project_index(input.project_id@)].supported) is None)
                    ==> normalized_values(pairs, input.values@)
                &&& res is Ok ==> sealed_pairs(key@, pairs, texts)
                &&& reports(res, #[trigger] old(self)@.create_entry(input.project_id@, input.name@, opt_view(input.category),
                    opt_view(input.description), input.values@, key@, id, pairs, texts), old(self)@, final(self)@)
            },
            answers(res, final(self)@),
            old(self)@.consistent() ==> final(self)@.consistent(),
    {
        let id = new_entity_id();
        let ghost before = self@;
        let ghost inp = input;
        let r = self.create_entry_rows(input, key, id.as_str());
        proof {
            if before.consistent() && r is Ok {
                let (pairs, texts) = choose|pairs: Seq<(Seq<char>, Seq<char>)>, texts: Seq<Seq<char>>| {
                    &&& (before.project_index(inp.project_id@) >= 0
                        && first_value_fault(inp.values@, before.projects[before.project_index(inp.project_id@)].supported) is None)
                        ==> normalized_values(pairs, inp.values@)
                    &&& r is Ok ==> sealed_pairs(key@, pairs, texts)
                    &&& reports(r, #[trigger] before.create_entry(inp.project_id@, inp.name@, opt_view(inp.category),
                        opt_view(inp.description), inp.values@, key@, id@, pairs, texts), before, self@)
                };
                lemma_create_entry_consistent(before, inp.project_id@, inp.name@, opt_view(inp.category),
                    opt_view(inp.description), inp.values@, key@, id@, pairs, texts);
            }
        }
        match r {
            Ok(()) => Ok(self.load_snapshot()),
            Err(e) => Err(e),
        }
    }

    /// Updates an entry, its values encrypted under `key`.
    pub fn update_entry(&mut self, input: UpdateEntryInput, key: &[u8]) -> (res: Result<AppSnapshot, AppError>)
        ensures
            exists|pairs: Seq<(Seq<char>, Seq<char>)>, texts: Seq<Seq<char>>| {
                &&& (old(self)@.project_index(input.project_id@) >= 0
                    && first_value_fault(input.values@, old(self)@.projects[old(self)@.project_index(input.project_id@)].supported) is None)
                    ==> normalized_values(pairs, input.values@)
                &&& res is Ok ==> sealed_pairs(key@, pairs, texts)
                &&& reports(res, #[trigger] old(self)@.update_entry(input.project_id@, input.entry_id@, input.name@, opt_view(input.category),
                    opt_view(input.description), input.values@, key@, pairs, texts), old(self)@, final(self)@)
            },
            answers(res, final(self)@),
            old(self)@.consistent() ==> final(self)@.consistent(),
    {
        let ghost before = self@;
        let ghost inp = input;
        let r = self.update_entry_rows(input, key);
        proof {
            if before.consistent() && r is Ok {
                let (pairs, texts) = choose|pairs: Seq<(Seq<char>, Seq<char>)>, texts: Seq<Seq<char>>| {
                    &&& (before.project_index(inp.project_id@) >= 0
                        && first_value_fault(inp.values@, before.projects[before.project_index(inp.project_id@)].supported) is None)
                        ==> normalized_values(pairs, inp.values@)
                    &&& r is Ok ==> sealed_pairs(key@, pairs, texts)
                    &&& reports(r, #[trigger] before.update_entry(inp.project_id@, inp.entry_id@, inp.name@, opt_view(inp.category),
                        opt_view(inp.description), inp.values@, key@, pairs, texts), before, self@)
                };
                lemma_update_entry_consistent(before, inp.project_id@, inp.entry_id@, inp.name@, opt_view(inp.category),
                    opt_view(inp.description), inp.values@, key@, pairs, texts);
            }
        }
        match r {
            Ok(()) => Ok(self.load_snapshot()),
            Err(e) => Err(e),
        }
    }

    pub fn delete_entry(&mut self, input: DeleteEntryInput) -> (res: Result<AppSnapshot, AppError>)
        ensures
            reports(res, old(self)@.delete_entry(input.project_id@, input.entry_id@), old(self)@, final(self)@),
            answers(res, final(self)@),
            old(self)@.consistent() ==> final(self)@.consistent(),
    {
        let ghost before = self@;
        let r = self.delete_entry_rows(input.project_id.as_str(), input.entry_id.as_str());
        proof {
            if before.consistent() && r is Ok {
                lemma_delete_entry_consistent(before, input.project_id@, input.entry_id@);
            }
        }
        match r {
            Ok(()) => Ok(self.load_snapshot()),
            Err(e) => Err(e),
        }
    }

    /// Imports `NAME=value` items into one environment of a project, values
    /// encrypted under `key`; answers with the snapshot and how many entries
    /// were created and updated.
    pub fn import_entries(&mut self, input: ImportEntriesInput, key: &[u8]) -> (res: Result<ImportEntriesResult, AppError>)
        ensures
            exists|ids: Seq<Seq<char>>, texts: Seq<Seq<char>>| #[trigger] import_reported(old(self)@, final(self)@, input, key@,
                import_counts(res), ids, texts),
            res matches Ok(r) ==> r.snapshot@ == final(self)@.snapshot(false),
            old(self)@.consistent() ==> final(self)@.consistent(),
    {
        let ghost inp = input;
        let ghost before = self@;
        let r = self.import_entries_rows(input, key);
        proof {
            if before.consistent() && r is Ok {
                let (ids, texts) = choose|ids: Seq<Seq<char>>, texts: Seq<Seq<char>>| #[trigger] import_reported(before, self@, inp, key@, r, ids, texts);
                lemma_import_entries_consistent(before, inp.project_id@, inp.environment@, inp.entries@, key@, ids, texts);
            }
        }
        match r {
            Ok((created, updated)) => Ok(ImportEntriesResult { snapshot: self.load_snapshot(), created, updated }),
            Err(e) => Err(e),
        }
    }
}

} // verus!
