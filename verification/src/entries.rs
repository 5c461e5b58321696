//! Creating and updating entries: their values are checked against the
//! project's environments and stored encrypted under the master key.

use vstd::prelude::*;
use crate::crypto::{encrypt_fault, encrypt_value, is_stored_form};
use crate::error::{AppError, is_crypto};
use crate::model::{CreateEntryInput, UpdateEntryInput};
use crate::normalize::{
    empty_entry_name_message, entry_name_of, first_value_fault, fold_values, keys_increasing, lists_map,
    normalize_entry_name, normalize_entry_values, normalize_optional_text, opt_view, optional_text_of,
    pairs_view,
};
use crate::order::str_eq;
use crate::text::{copy_opt, copy_strings};
use crate::seqs::{first_index, lemma_first_index, lemma_first_index_prefix, lemma_first_index_take, lemma_filter_all, lemma_filter_take};
use crate::store::{entry_not_found, project_not_found, reports, value_not_of_entry, EntryRow, EntryV, Fault, Store, StoreV, ValueRow, ValueV};

verus! {

/// The value rows of an entry for (environment, value) pairs and the stored
/// texts of the values.
pub open spec fn value_rows(eid: Seq<char>, pairs: Seq<(Seq<char>, Seq<char>)>, texts: Seq<Seq<char>>) -> Seq<ValueV> {
    Seq::new(pairs.len(), |k: int| ValueV { entry_id: eid, environment: pairs[k].0, encrypted: texts[k] })
}

pub open spec fn cannot_encrypt(key: Seq<u8>) -> spec_fn((Seq<char>, Seq<char>)) -> bool {
    |p: (Seq<char>, Seq<char>)| encrypt_fault(key, p.1) is Some
}

/// Why the first value that cannot be encrypted fails, if one cannot.
pub open spec fn pairs_encrypt_fault(key: Seq<u8>, pairs: Seq<(Seq<char>, Seq<char>)>) -> Option<Seq<char>> {
    let k = first_index(pairs, cannot_encrypt(key));
    if k >= 0 { encrypt_fault(key, pairs[k].1) } else { None }
}

/// Each text stores the value of the pair at the same position.
pub open spec fn sealed_pairs(key: Seq<u8>, pairs: Seq<(Seq<char>, Seq<char>)>, texts: Seq<Seq<char>>) -> bool {
    &&& texts.len() == pairs.len()
    &&& forall|k: int| 0 <= k < pairs.len() ==> is_stored_form(key, #[trigger] texts[k], pairs[k].1)
}

/// `pairs` lists, by environment, the values that the inputs leave.
pub open spec fn normalized_values(pairs: Seq<(Seq<char>, Seq<char>)>, values: Seq<crate::model::EntryValueInput>) -> bool {
    keys_increasing(pairs) && lists_map(pairs, fold_values(values))
}

pub open spec fn entry_pair_taken_message() -> Seq<char> {
    "UNIQUE constraint failed: entries.project_id, entries.name"@
}

pub open spec fn foreign_entry_message() -> Seq<char> {
    "entry does not belong to the selected project"@
}

pub open spec fn entry_has_id(eid: Seq<char>) -> spec_fn(EntryV) -> bool {
    |e: EntryV| e.id == eid
}

impl StoreV {
    /// Whether an entry of project `pid` other than `except` is named `name`.
    pub open spec fn entry_name_taken(self, pid: Seq<char>, name: Seq<char>, except: Option<Seq<char>>) -> bool {
        exists|j: int| 0 <= j < self.entries.len() && #[trigger] self.entries[j].project_id == pid
            && self.entries[j].name == name && except != Some(self.entries[j].id)
    }

    /// `create_entry`, with the new entry's id, its normalised values and
    /// their stored texts given.
    pub open spec fn create_entry(
        self,
        pid: Seq<char>,
        name_in: Seq<char>,
        category: Option<Seq<char>>,
        description: Option<Seq<char>>,
        values_in: Seq<crate::model::EntryValueInput>,
        key: Seq<u8>,
        id: Seq<char>,
        pairs: Seq<(Seq<char>, Seq<char>)>,
        texts: Seq<Seq<char>>,
    ) -> Result<StoreV, Fault> {
        let i = self.project_index(pid);
        if i < 0 {
            Err(Fault::NotFound(project_not_found()))
        } else {
            match first_value_fault(values_in, self.projects[i].supported) {
                Some(m) => Err(Fault::Validation(m)),
                None => {
                    let name = entry_name_of(name_in);
                    if name.len() == 0 {
                        Err(Fault::Validation(empty_entry_name_message()))
                    } else if exists|j: int| 0 <= j < self.entries.len() && #[trigger] self.entries[j].id == id {
                        Err(Fault::Sql("UNIQUE constraint failed: entries.id"@))
                    } else if self.entry_name_taken(pid, name, None) {
                        Err(Fault::Sql(entry_pair_taken_message()))
                    } else {
                        match pairs_encrypt_fault(key, pairs) {
                            Some(m) => Err(Fault::Crypto(m)),
                            None => Ok(StoreV {
                                entries: self.entries.push(EntryV {
                                    id,
                                    project_id: pid,
                                    name,
                                    category: optional_text_of(category),
                                    description: optional_text_of(description),
                                }),
                                values: self.values.filter(value_not_of_entry(id)) + value_rows(id, pairs, texts),
                                ..self
                            }),
                        }
                    }
                },
            }
        }
    }

    /// `update_entry`, with the entry's normalised values and their stored
    /// texts given: the entry must belong to the project; its values are
    /// replaced.
    pub open spec fn update_entry(
        self,
        pid: Seq<char>,
        eid: Seq<char>,
        name_in: Seq<char>,
        category: Option<Seq<char>>,
        description: Option<Seq<char>>,
        values_in: Seq<crate::model::EntryValueInput>,
        key: Seq<u8>,
        pairs: Seq<(Seq<char>, Seq<char>)>,
        texts: Seq<Seq<char>>,
    ) -> Result<StoreV, Fault> {
        let i = self.project_index(pid);
        if i < 0 {
            Err(Fault::NotFound(project_not_found()))
        } else {
            match first_value_fault(values_in, self.projects[i].supported) {
                Some(m) => Err(Fault::Validation(m)),
                None => {
                    let j = first_index(self.entries, entry_has_id(eid));
                    let name = entry_name_of(name_in);
                    if j < 0 {
                        Err(Fault::NotFound(entry_not_found()))
                    } else if self.entries[j].project_id != pid {
                        Err(Fault::Validation(foreign_entry_message()))
                    } else if name.len() == 0 {
                        Err(Fault::Validation(empty_entry_name_message()))
                    } else if self.entry_name_taken(pid, name, Some(eid)) {
                        Err(Fault::Sql(entry_pair_taken_message()))
                    } else {
                        match pairs_encrypt_fault(key, pairs) {
                            Some(m) => Err(Fault::Crypto(m)),
                            None => Ok(StoreV {
                                entries: self.entries.map_values(|e: EntryV| if e.id == eid {
                                    EntryV {
                                        name,
                                        category: optional_text_of(category),
                                        description: optional_text_of(description),
                                        ..e
                                    }
                                } else {
                                    e
                                }),
                                values: self.values.filter(value_not_of_entry(eid)) + value_rows(eid, pairs, texts),
                                ..self
                            }),
                        }
                    }
                },
            }
        }
    }
}

/// Encrypts the values of the pairs; the first failure is reported.
pub fn seal_pairs(key: &[u8], pairs: &Vec<(String, String)>) -> (res: Result<Vec<String>, AppError>)
    ensures
        match res {
            Ok(texts) => pairs_encrypt_fault(key@, pairs_view(pairs@)) is None
                && sealed_pairs(key@, pairs_view(pairs@), texts@.map_values(|t: String| t@)),
            Err(e) => pairs_encrypt_fault(key@, pairs_view(pairs@)) matches Some(m) && is_crypto(e, m),
        },
{
    let ghost pv = pairs_view(pairs@);
    let ghost p = cannot_encrypt(key@);
    let mut texts: Vec<String> = Vec::new();
    let mut k: usize = 0;
    while k < pairs.len()
        invariant
            k <= pairs@.len(),
            pv == pairs_view(pairs@),
            p == cannot_encrypt(key@),
            first_index(pv.take(k as int), p) < 0,
            texts@.len() == k,
            forall|j: int| 0 <= j < k ==> is_stored_form(key@, #[trigger] texts@[j]@, pv[j].1),
        decreases pairs@.len() - k,
    {
        proof { lemma_first_index_take(pv, k as int, p); }
        match encrypt_value(key, pairs[k].1.as_str()) {
            Ok(t) => {
                texts.push(t);
            },
            Err(e) => {
                proof { lemma_first_index_prefix(pv, k + 1, p); }
                return Err(e);
            },
        }
        k = k + 1;
    }
    assert(pv.take(pv.len() as int) =~= pv);
    let ghost tv = texts@.map_values(|t: String| t@);
    assert forall|j: int| 0 <= j < pv.len() implies is_stored_form(key@, #[trigger] tv[j], pv[j].1) by {
        assert(tv[j] == texts@[j]@);
    }
    Ok(texts)
}

impl Store {
    /// Replaces the values of an entry by the given environments and texts.
    fn replace_values(&mut self, eid: &str, pairs: &Vec<(String, String)>, texts: &Vec<String>)
        requires
            texts@.len() == pairs@.len(),
        ensures
            final(self)@ == (StoreV {
                values: old(self)@.values.filter(value_not_of_entry(eid@))
                    + value_rows(eid@, pairs_view(pairs@), texts@.map_values(|t: String| t@)),
                ..old(self)@
            }),
    {
        let ghost vs = old(self)@.values;
        let ghost p = value_not_of_entry(eid@);
        let mut kept: Vec<ValueRow> = Vec::new();
        let mut i: usize = 0;
        while i < self.entry_values.len()
            invariant
                i <= vs.len(),
                self@ == old(self)@,
                vs == old(self)@.values,
                p == value_not_of_entry(eid@),
                kept@.map_values(|r: ValueRow| r@) == vs.take(i as int).filter(p),
            decreases vs.len() - i,
        {
            proof { lemma_filter_take(vs, i as int, p); }
            if !str_eq(self.entry_values[i].entry_id.as_str(), eid) {
                kept.push(self.entry_values[i].copy());
                assert(kept@.map_values(|r: ValueRow| r@) =~= vs.take(i as int).filter(p).push(vs[i as int]));
            }
            i = i + 1;
        }
        proof { lemma_filter_all(vs, p); }
        let ghost base = kept@.map_values(|r: ValueRow| r@);
        let ghost rows = value_rows(eid@, pairs_view(pairs@), texts@.map_values(|t: String| t@));
        let mut k: usize = 0;
        while k < pairs.len()
            invariant
                k <= pairs@.len() == texts@.len(),
                base == vs.filter(p),
                rows == value_rows(eid@, pairs_view(pairs@), texts@.map_values(|t: String| t@)),
                kept@.map_values(|r: ValueRow| r@) =~= base + rows.take(k as int),
            decreases pairs@.len() - k,
        {
            let row = ValueRow {
                entry_id: String::from_str(eid),
                environment_name: pairs[k].0.clone(),
                encrypted_value: texts[k].clone(),
            };
            let ghost before = kept@.map_values(|r: ValueRow| r@);
            kept.push(row);
            assert(kept@.map_values(|r: ValueRow| r@) =~= before.push(rows[k as int]));
            assert(rows.take(k + 1) =~= rows.take(k as int).push(rows[k as int]));
            k = k + 1;
        }
        assert(rows.take(rows.len() as int) =~= rows);
        self.entry_values = kept;
    }

    /// Whether an entry has the given id.
    pub fn entry_id_taken(&self, id: &str) -> (r: bool)
        ensures
            r == exists|j: int| 0 <= j < self@.entries.len() && #[trigger] self@.entries[j].id == id@,
    {
        let mut i: usize = 0;
        while i < self.entries.len()
            invariant
                i <= self@.entries.len(),
                forall|j: int| 0 <= j < i ==> self@.entries[j].id != id@,
            decreases self@.entries.len() - i,
        {
            if str_eq(self.entries[i].id.as_str(), id) {
                assert(self@.entries[i as int].id == id@);
                return true;
            }
            i = i + 1;
        }
        false
    }

    /// Whether an entry of a project other than `except` (when given) has the name.
    fn entry_name_taken(&self, pid: &str, name: &String, except: &str, has_except: bool) -> (r: bool)
        ensures
            r == self@.entry_name_taken(pid@, name@, if has_except { Some(except@) } else { None }),
    {
        let ghost ex: Option<Seq<char>> = if has_except { Some(except@) } else { None };
        let mut i: usize = 0;
        while i < self.entries.len()
            invariant
                i <= self@.entries.len(),
                ex == (if has_except { Some(except@) } else { None::<Seq<char>> }),
                forall|j: int| 0 <= j < i ==> !(#[trigger] self@.entries[j].project_id == pid@
                    && self@.entries[j].name == name@ && ex != Some(self@.entries[j].id)),
            decreases self@.entries.len() - i,
        {
            if str_eq(self.entries[i].project_id.as_str(), pid) && self.entries[i].name == *name
                && !(has_except && str_eq(self.entries[i].id.as_str(), except)) {
                assert(self@.entries[i as int].project_id == pid@);
                return true;
            }
            i = i + 1;
        }
        false
    }

    /// The position of the first entry with the given id.
    fn entry_with_id(&self, eid: &str) -> (r: Option<usize>)
        ensures
            match r {
                Some(i) => i as int == first_index(self@.entries, entry_has_id(eid@)) && i < self@.entries.len(),
                None => first_index(self@.entries, entry_has_id(eid@)) < 0,
            },
    {
        let ghost es = self@.entries;
        let ghost p = entry_has_id(eid@);
        let mut i: usize = 0;
        while i < self.entries.len()
            invariant
                i <= es.len(),
                es == self@.entries,
                p == entry_has_id(eid@),
                first_index(es.take(i as int), p) < 0,
            decreases es.len() - i,
        {
            proof { lemma_first_index_take(es, i as int, p); }
            if str_eq(self.entries[i].id.as_str(), eid) {
                proof { lemma_first_index_prefix(es, i + 1, p); }
                return Some(i);
            }
            i = i + 1;
        }
        assert(es.take(es.len() as int) =~= es);
        None
    }

    /// Adds an entry with the given id to a project, with its values
    /// encrypted under `key`.
    pub fn create_entry_rows(&mut self, input: CreateEntryInput, key: &[u8], id: &str) -> (res: Result<(), AppError>)
        ensures
            exists|pairs: Seq<(Seq<char>, Seq<char>)>, texts: Seq<Seq<char>>| {
                &&& (old(self)@.project_index(input.project_id@) >= 0
                    && first_value_fault(input.values@, old(self)@.projects[old(self)@.project_index(input.project_id@)].supported) is None)
                    ==> normalized_values(pairs, input.values@)
                &&& res is Ok ==> sealed_pairs(key@, pairs, texts)
                &&& reports(res, #[trigger] old(self)@.create_entry(input.project_id@, input.name@, opt_view(input.category),
                    opt_view(input.description), input.values@, key@, id@, pairs, texts), old(self)@, final(self)@)
            },
    {
        let ghost old_v = self@;
        let ghost values_in = input.values@;
        let ghost pid = input.project_id@;
        let ghost name_in = input.name@;
        let ghost cat = opt_view(input.category);
        let ghost desc = opt_view(input.description);
        let ghost no_pairs = Seq::<(Seq<char>, Seq<char>)>::empty();
        let ghost no_texts = Seq::<Seq<char>>::empty();
        let i = match self.project_position(input.project_id.as_str()) {
            None => {
                let e = AppError::NotFound(String::from_str("project not found"));
                assert(reports(Err::<(), AppError>(e), old_v.create_entry(pid, name_in, cat, desc, values_in, key@, id@, no_pairs, no_texts), old_v, self@));
                return Err(e);
            },
            Some(i) => i,
        };
        let supported = copy_strings(&self.projects[i].supported_environments);
        let pairs = match normalize_entry_values(input.values, supported.as_slice()) {
            Ok(p) => p,
            Err(e) => {
                assert(reports(Err::<(), AppError>(e), old_v.create_entry(pid, name_in, cat, desc, values_in, key@, id@, no_pairs, no_texts), old_v, self@));
                return Err(e);
            },
        };
        let ghost pv = pairs_view(pairs@);
        assert(normalized_values(pv, values_in));
        let name = match normalize_entry_name(input.name.as_str()) {
            Ok(n) => n,
            Err(e) => {
                assert(reports(Err::<(), AppError>(e), old_v.create_entry(pid, name_in, cat, desc, values_in, key@, id@, pv, no_texts), old_v, self@));
                return Err(e);
            },
        };
        let category = normalize_optional_text(input.category);
        let description = normalize_optional_text(input.description);
        if self.entry_id_taken(id) {
            let e = AppError::Sql(String::from_str("UNIQUE constraint failed: entries.id"));
            assert(reports(Err::<(), AppError>(e), old_v.create_entry(pid, name_in, cat, desc, values_in, key@, id@, pv, no_texts), old_v, self@));
            return Err(e);
        }
        if self.entry_name_taken(input.project_id.as_str(), &name, id, false) {
            let e = AppError::Sql(String::from_str("UNIQUE constraint failed: entries.project_id, entries.name"));
            assert(reports(Err::<(), AppError>(e), old_v.create_entry(pid, name_in, cat, desc, values_in, key@, id@, pv, no_texts), old_v, self@));
            return Err(e);
        }
        let texts = match seal_pairs(key, &pairs) {
            Ok(t) => t,
            Err(e) => {
                assert(reports(Err::<(), AppError>(e), old_v.create_entry(pid, name_in, cat, desc, values_in, key@, id@, pv, no_texts), old_v, self@));
                return Err(e);
            },
        };
        let ghost tv = texts@.map_values(|t: String| t@);
        let row = EntryRow {
            id: String::from_str(id),
            project_id: input.project_id,
            name,
            category,
            description,
        };
        let ghost rv = row@;
        self.entries.push(row);
        assert(self@.entries =~= old_v.entries.push(rv));
        self.replace_values(id, &pairs, &texts);
        assert(self@ == old_v.create_entry(pid, name_in, cat, desc, values_in, key@, id@, pv, tv)->Ok_0);
        assert(reports(Ok::<(), AppError>(()), old_v.create_entry(pid, name_in, cat, desc, values_in, key@, id@, pv, tv), old_v, self@));
        Ok(())
    }

    /// Sets the name, category and description of the entries with the given id.
    fn rewrite_entries(&mut self, eid: &str, name: &String, category: &Option<String>, description: &Option<String>)
        ensures
            final(self)@ == (StoreV {
                entries: old(self)@.entries.map_values(|e: EntryV| if e.id == eid@ {
                    EntryV { name: name@, category: opt_view(*category), description: opt_view(*description), ..e }
                } else {
                    e
                }),
                ..old(self)@
            }),
    {
        let ghost es = old(self)@.entries;
        let ghost f = |e: EntryV| if e.id == eid@ {
            EntryV { name: name@, category: opt_view(*category), description: opt_view(*description), ..e }
        } else {
            e
        };
        let mut out: Vec<EntryRow> = Vec::new();
        let mut i: usize = 0;
        while i < self.entries.len()
            invariant
                i <= es.len(),
                self@ == old(self)@,
                es == old(self)@.entries,
                out@.map_values(|r: EntryRow| r@) == es.take(i as int).map_values(f),
                f == (|e: EntryV| if e.id == eid@ {
                    EntryV { name: name@, category: opt_view(*category), description: opt_view(*description), ..e }
                } else {
                    e
                }),
            decreases es.len() - i,
        {
            let ghost before = out@.map_values(|r: EntryRow| r@);
            let row = if str_eq(self.entries[i].id.as_str(), eid) {
                EntryRow {
                    id: self.entries[i].id.clone(),
                    project_id: self.entries[i].project_id.clone(),
                    name: name.clone(),
                    category: copy_opt(category),
                    description: copy_opt(description),
                }
            } else {
                self.entries[i].copy()
            };
            assert(row@ == f(es[i as int]));
            out.push(row);
            assert(out@.map_values(|r: EntryRow| r@) =~= before.push(row@));
            assert(es.take(i + 1).map_values(f) =~= es.take(i as int).map_values(f).push(f(es[i as int])));
            i = i + 1;
        }
        assert(es.take(es.len() as int) =~= es);
        self.entries = out;
    }

    /// Updates an entry of a project, replacing its values with ones
    /// encrypted under `key`.
    pub fn update_entry_rows(&mut self, input: UpdateEntryInput, key: &[u8]) -> (res: Result<(), AppError>)
        ensures
            exists|pairs: Seq<(Seq<char>, Seq<char>)>, texts: Seq<Seq<char>>| {
                &&& (old(self)@.project_index(input.project_id@) >= 0
                    && first_value_fault(input.values@, old(self)@.projects[old(self)@.project_index(input.project_id@)].supported) is None)
                    ==> normalized_values(pairs, input.values@)
                &&& res is Ok ==> sealed_pairs(key@, pairs, texts)
                &&& reports(res, #[trigger] old(self)@.update_entry(input.project_id@, input.entry_id@, input.name@, opt_view(input.category),
                    opt_view(input.description), input.values@, key@, pairs, texts), old(self)@, final(self)@)
            },
    {
        let ghost old_v = self@;
        let ghost values_in = input.values@;
        let ghost pid = input.project_id@;
        let ghost eid = input.entry_id@;
        let ghost name_in = input.name@;
        let ghost cat = opt_view(input.category);
        let ghost desc = opt_view(input.description);
        let ghost no_pairs = Seq::<(Seq<char>, Seq<char>)>::empty();
        let ghost no_texts = Seq::<Seq<char>>::empty();
        let i = match self.project_position(input.project_id.as_str()) {
            None => {
                let e = AppError::NotFound(String::from_str("project not found"));
                assert(reports(Err::<(), AppError>(e), old_v.update_entry(pid, eid, name_in, cat, desc, values_in, key@, no_pairs, no_texts), old_v, self@));
                return Err(e);
            },
            Some(i) => i,
        };
        let supported = copy_strings(&self.projects[i].supported_environments);
        let pairs = match normalize_entry_values(input.values, supported.as_slice()) {
            Ok(p) => p,
            Err(e) => {
                assert(reports(Err::<(), AppError>(e), old_v.update_entry(pid, eid, name_in, cat, desc, values_in, key@, no_pairs, no_texts), old_v, self@));
                return Err(e);
            },
        };
        let ghost pv = pairs_view(pairs@);
        assert(normalized_values(pv, values_in));
        let j = match self.entry_with_id(input.entry_id.as_str()) {
            None => {
                let e = AppError::NotFound(String::from_str("entry not found"));
                assert(reports(Err::<(), AppError>(e), old_v.update_entry(pid, eid, name_in, cat, desc, values_in, key@, pv, no_texts), old_v, self@));
                return Err(e);
            },
            Some(j) => j,
        };
        if !str_eq(self.entries[j].project_id.as_str(), input.project_id.as_str()) {
            let e = AppError::Validation(String::from_str("entry does not belong to the selected project"));
            assert(reports(Err::<(), AppError>(e), old_v.update_entry(pid, eid, name_in, cat, desc, values_in, key@, pv, no_texts), old_v, self@));
            return Err(e);
        }
        let name = match normalize_entry_name(input.name.as_str()) {
            Ok(n) => n,
            Err(e) => {
                assert(reports(Err::<(), AppError>(e), old_v.update_entry(pid, eid, name_in, cat, desc, values_in, key@, pv, no_texts), old_v, self@));
                return Err(e);
            },
        };
        let category = normalize_optional_text(input.category);
        let description = normalize_optional_text(input.description);
        if self.entry_name_taken(input.project_id.as_str(), &name, input.entry_id.as_str(), true) {
            let e = AppError::Sql(String::from_str("UNIQUE constraint failed: entries.project_id, entries.name"));
            assert(reports(Err::<(), AppError>(e), old_v.update_entry(pid, eid, name_in, cat, desc, values_in, key@, pv, no_texts), old_v, self@));
            return Err(e);
        }
        let texts = match seal_pairs(key, &pairs) {
            Ok(t) => t,
            Err(e) => {
                assert(reports(Err::<(), AppError>(e), old_v.update_entry(pid, eid, name_in, cat, desc, values_in, key@, pv, no_texts), old_v, self@));
                return Err(e);
            },
        };
        let ghost tv = texts@.map_values(|t: String| t@);
        self.rewrite_entries(input.entry_id.as_str(), &name, &category, &description);
        self.replace_values(input.entry_id.as_str(), &pairs, &texts);
        assert(self@.entries =~= old_v.update_entry(pid, eid, name_in, cat, desc, values_in, key@, pv, tv)->Ok_0.entries);
        assert(self@ == old_v.update_entry(pid, eid, name_in, cat, desc, values_in, key@, pv, tv)->Ok_0);
        assert(reports(Ok::<(), AppError>(()), old_v.update_entry(pid, eid, name_in, cat, desc, values_in, key@, pv, tv), old_v, self@));
        Ok(())
    }
}

} // verus!
