//! Resolving a project's effective environment: each entry takes its value
//! from its override environment, else from the project's base environment;
//! entries without a value there are left out.

use vstd::prelude::*;
use crate::crypto::{decrypt_error, decrypt_value, decrypted_text};
use crate::error::AppError;
use crate::model::{DecryptedEntryValue, EffectiveEnvItem, EntryValuesResult, PreviewResult};
use crate::normalize::{serialize_env_value, serialized_value};
use crate::order::{lowered, str_eq, str_nocase_eq};
use crate::error::{is_not_found, is_validation};
use crate::normalize::{opt_view, pairs_view};
use crate::text::{copy_opt, lower_chars};
use crate::seqs::{first_index, lemma_first_index, lemma_first_index_prefix, lemma_first_index_take, lemma_filter_all, lemma_filter_take};
use crate::sort::{keys_view, positions, stable_order, stable_sort};
use crate::store::{ProjectV, 
    arrange, entry_in_project, entry_keys, entry_not_found, entry_of_project, override_is, override_of_project, project_not_found,
    value_keys, value_of_entry, EntryRow, EntryV, Fault, Store, StoreV, ValueRow, ValueV,
};
use crate::text::{chars_of, string_from_chars};
use crate::laws::lemma_sorted_entries_own;

verus! {

/// One variable of a resolved preview, with its decrypted value.
pub struct ResolvedEffectiveEnvItem {
    pub entry_id: String,
    pub entry_name: String,
    pub source_environment: String,
    pub value: String,
}

/// A resolved preview of a project.
pub struct ResolvedPreview {
    pub project_id: String,
    pub project_name: String,
    pub preset_label: String,
    pub serialized: String,
    pub items: Vec<ResolvedEffectiveEnvItem>,
    /// The entries left out for want of a value, as (name, environment).
    pub skipped: Vec<(String, String)>,
}

pub struct PreviewItemV {
    pub entry_id: Seq<char>,
    pub entry_name: Seq<char>,
    pub source_environment: Seq<char>,
    pub value: Seq<char>,
}

pub struct PreviewV {
    pub project_id: Seq<char>,
    pub project_name: Seq<char>,
    pub preset_label: Seq<char>,
    pub serialized: Seq<char>,
    pub items: Seq<PreviewItemV>,
    pub skipped: Seq<(Seq<char>, Seq<char>)>,
}

impl View for ResolvedEffectiveEnvItem {
    type V = PreviewItemV;

    open spec fn view(&self) -> PreviewItemV {
        PreviewItemV {
            entry_id: self.entry_id@,
            entry_name: self.entry_name@,
            source_environment: self.source_environment@,
            value: self.value@,
        }
    }
}

impl View for ResolvedPreview {
    type V = PreviewV;

    open spec fn view(&self) -> PreviewV {
        PreviewV {
            project_id: self.project_id@,
            project_name: self.project_name@,
            preset_label: self.preset_label@,
            serialized: self.serialized@,
            items: self.items@.map_values(|i: ResolvedEffectiveEnvItem| i@),
            skipped: pairs_view(self.skipped@),
        }
    }
}

pub open spec fn value_is(eid: Seq<char>, env: Seq<char>) -> spec_fn(ValueV) -> bool {
    |v: ValueV| v.entry_id == eid && v.environment == env
}

/// The line `NAME=value` of an item.
pub open spec fn item_line(item: PreviewItemV) -> Seq<char> {
    item.entry_name + seq!['='] + serialized_value(item.value)
}

/// The lines of the items, joined by newlines.
pub open spec fn joined_lines(items: Seq<PreviewItemV>) -> Seq<char>
    decreases items.len(),
{
    if items.len() == 0 {
        Seq::empty()
    } else if items.len() == 1 {
        item_line(items[0])
    } else {
        joined_lines(items.drop_last()) + seq!['\n'] + item_line(items.last())
    }
}

impl StoreV {
    /// The environment an entry of a project is overridden to, if any (the
    /// overrides table holds at most one row per entry of a project).
    pub open spec fn override_env(self, pid: Seq<char>, eid: Seq<char>) -> Option<Seq<char>> {
        let i = first_index(self.overrides, override_is(pid, eid));
        if i >= 0 { Some(self.overrides[i].environment) } else { None }
    }

    /// The environment an entry takes its value from.
    pub open spec fn source_env(self, pid: Seq<char>, base: Seq<char>, eid: Seq<char>) -> Seq<char> {
        match self.override_env(pid, eid) {
            Some(e) => e,
            None => base,
        }
    }

    /// The stored text of an entry's value for an environment, if any.
    pub open spec fn stored_text(self, eid: Seq<char>, env: Seq<char>) -> Option<Seq<char>> {
        let i = first_index(self.values, value_is(eid, env));
        if i >= 0 { Some(self.values[i].encrypted) } else { None }
    }

    /// The entries of a project, by name.
    pub open spec fn sorted_entries(self, pid: Seq<char>) -> Seq<EntryV> {
        let es = self.entries.filter(entry_of_project(pid));
        arrange(es, stable_order(entry_keys(es)))
    }

    /// The preview items of the entries `es`, or `None` when a value fails
    /// to decrypt.
    pub open spec fn preview_items(self, key: Seq<u8>, pid: Seq<char>, base: Seq<char>, es: Seq<EntryV>) -> Option<Seq<PreviewItemV>>
        decreases es.len(),
    {
        if es.len() == 0 {
            Some(Seq::empty())
        } else {
            match self.preview_items(key, pid, base, es.drop_last()) {
                None => None,
                Some(prev) => {
                    let e = es.last();
                    let env = self.source_env(pid, base, e.id);
                    match self.stored_text(e.id, env) {
                        None => Some(prev),
                        Some(text) => match decrypted_text(key, text) {
                            None => None,
                            Some(v) => Some(prev.push(PreviewItemV { entry_id: e.id, entry_name: e.name, source_environment: env, value: v })),
                        },
                    }
                },
            }
        }
    }

    /// The entries of `es` that have no value for their source environment,
    /// as (name, environment).
    pub open spec fn preview_skipped(self, pid: Seq<char>, base: Seq<char>, es: Seq<EntryV>) -> Seq<(Seq<char>, Seq<char>)>
        decreases es.len(),
    {
        if es.len() == 0 {
            Seq::empty()
        } else {
            let prev = self.preview_skipped(pid, base, es.drop_last());
            let e = es.last();
            let env = self.source_env(pid, base, e.id);
            if self.stored_text(e.id, env) is None {
                prev.push((e.name, env))
            } else {
                prev
            }
        }
    }

    /// The stored text of the first entry of `es` whose value does not
    /// decrypt, if one does not.
    pub open spec fn preview_fault(self, key: Seq<u8>, pid: Seq<char>, base: Seq<char>, es: Seq<EntryV>) -> Option<Seq<char>>
        decreases es.len(),
    {
        if es.len() == 0 {
            None
        } else {
            match self.preview_fault(key, pid, base, es.drop_last()) {
                Some(t) => Some(t),
                None => {
                    let e = es.last();
                    match self.stored_text(e.id, self.source_env(pid, base, e.id)) {
                        Some(t) => if decrypted_text(key, t) is None { Some(t) } else { None },
                        None => None,
                    }
                },
            }
        }
    }

    /// The stored text whose decryption fails the preview of the project at
    /// position `i`, if one does.
    pub open spec fn preview_fault_at(self, i: int, key: Seq<u8>) -> Option<Seq<char>> {
        let p = self.projects[i];
        self.preview_fault(key, p.id, p.base, self.sorted_entries(p.id))
    }

    /// The preset label: `all_<base>` without overrides, else `custom`.
    pub open spec fn preset_label(self, pid: Seq<char>, base: Seq<char>) -> Seq<char> {
        if first_index(self.overrides, override_of_project(pid)) < 0 {
            "all_"@ + base
        } else {
            "custom"@
        }
    }

    /// The preview of the project at position `i`, or `None` when a value
    /// fails to decrypt.
    pub open spec fn preview_at(self, i: int, key: Seq<u8>) -> Option<PreviewV> {
        let p = self.projects[i];
        match self.preview_items(key, p.id, p.base, self.sorted_entries(p.id)) {
            None => None,
            Some(items) => Some(PreviewV {
                project_id: p.id,
                project_name: p.name,
                preset_label: self.preset_label(p.id, p.base),
                serialized: joined_lines(items),
                items,
                skipped: self.preview_skipped(p.id, p.base, self.sorted_entries(p.id)),
            }),
        }
    }
}

impl Store {
    /// The entries of a project, by name.
    pub fn sorted_entry_rows(&self, pid: &str) -> (r: Vec<EntryRow>)
        ensures
            r@.map_values(|e: EntryRow| e@) == self@.sorted_entries(pid@),
            forall|m: int| 0 <= m < r@.len() ==> (#[trigger] r@[m])@.project_id == pid@ && self@.entries.contains(r@[m]@),
            forall|j: int| 0 <= j < self@.entries.len() && (#[trigger] self@.entries[j]).project_id == pid@
                ==> r@.map_values(|e: EntryRow| e@).contains(self@.entries[j]),
    {
        let ghost all = self@.entries;
        let ghost p = entry_of_project(pid@);
        let mut es: Vec<EntryRow> = Vec::new();
        let mut i: usize = 0;
        while i < self.entries.len()
            invariant
                i <= all.len(),
                all == self@.entries,
                p == entry_of_project(pid@),
                es@.map_values(|r: EntryRow| r@) == all.take(i as int).filter(p),
            decreases all.len() - i,
        {
            proof { lemma_filter_take(all, i as int, p); }
            if str_eq(self.entries[i].project_id.as_str(), pid) {
                es.push(self.entries[i].copy());
                assert(es@.map_values(|r: EntryRow| r@) =~= all.take(i as int).filter(p).push(all[i as int]));
            }
            i = i + 1;
        }
        proof { lemma_filter_all(all, p); }
        let ghost esv = es@.map_values(|r: EntryRow| r@);
        let mut keys: Vec<Vec<char>> = Vec::new();
        let mut i: usize = 0;
        while i < es.len()
            invariant
                i <= es@.len(),
                esv == es@.map_values(|r: EntryRow| r@),
                keys_view(keys@) =~= entry_keys(esv.take(i as int)),
            decreases es@.len() - i,
        {
            let k = lowered(es[i].name.as_str());
            keys.push(k);
            assert(entry_keys(esv.take(i + 1)) =~= entry_keys(esv.take(i as int)).push(k@));
            i = i + 1;
        }
        assert(esv.take(esv.len() as int) =~= esv);
        let order = stable_sort(&keys);
        let ghost o = positions(order@);
        let mut r: Vec<EntryRow> = Vec::new();
        let mut k: usize = 0;
        while k < order.len()
            invariant
                k <= order@.len(),
                o == positions(order@),
                esv == es@.map_values(|r: EntryRow| r@),
                forall|j: int| 0 <= j < order@.len() ==> order@[j] < es@.len(),
                r@.map_values(|e: EntryRow| e@) =~= o.take(k as int).map_values(|j: int| esv[j]),
            decreases order@.len() - k,
        {
            let j = order[k];
            let row = es[j].copy();
            let ghost before = r@.map_values(|e: EntryRow| e@);
            r.push(row);
            assert(r@.map_values(|e: EntryRow| e@) =~= before.push(esv[j as int]));
            assert(o.take(k + 1) =~= o.take(k as int).push(j as int));
            k = k + 1;
        }
        assert(o.take(o.len() as int) =~= o);
        proof {
            lemma_sorted_entries_own(self@, pid@);
            let rv = r@.map_values(|e: EntryRow| e@);
            assert forall|m: int| 0 <= m < r@.len() implies (#[trigger] r@[m])@.project_id == pid@ && self@.entries.contains(r@[m]@) by {
                assert(rv[m] == r@[m]@);
            }
        }
        r
    }

    /// The environment an entry of a project is overridden to, if any.
    pub fn override_env(&self, pid: &str, eid: &str) -> (r: Option<String>)
        ensures
            match r {
                Some(e) => self@.override_env(pid@, eid@) == Some(e@),
                None => self@.override_env(pid@, eid@) is None,
            },
    {
        let ghost os = self@.overrides;
        let ghost p = override_is(pid@, eid@);
        let mut i: usize = 0;
        while i < self.entry_overrides.len()
            invariant
                i <= os.len(),
                os == self@.overrides,
                p == override_is(pid@, eid@),
                first_index(os.take(i as int), p) < 0,
            decreases os.len() - i,
        {
            proof { lemma_first_index_take(os, i as int, p); }
            if str_eq(self.entry_overrides[i].project_id.as_str(), pid) && str_eq(self.entry_overrides[i].entry_id.as_str(), eid) {
                proof { lemma_first_index_prefix(os, i + 1, p); }
                return Some(self.entry_overrides[i].environment_name.clone());
            }
            i = i + 1;
        }
        assert(os.take(os.len() as int) =~= os);
        None
    }

    /// Whether a project has any override.
    pub fn has_overrides(&self, pid: &str) -> (r: bool)
        ensures
            r == (first_index(self@.overrides, override_of_project(pid@)) >= 0),
    {
        let ghost os = self@.overrides;
        let ghost p = override_of_project(pid@);
        let mut i: usize = 0;
        while i < self.entry_overrides.len()
            invariant
                i <= os.len(),
                os == self@.overrides,
                p == override_of_project(pid@),
                first_index(os.take(i as int), p) < 0,
            decreases os.len() - i,
        {
            proof { lemma_first_index_take(os, i as int, p); }
            if str_eq(self.entry_overrides[i].project_id.as_str(), pid) {
                proof { lemma_first_index_prefix(os, i + 1, p); }
                return true;
            }
            i = i + 1;
        }
        assert(os.take(os.len() as int) =~= os);
        false
    }

    /// The stored text of an entry's value for an environment, if any.
    pub fn stored_text(&self, eid: &str, env: &str) -> (r: Option<String>)
        ensures
            match r {
                Some(t) => self@.stored_text(eid@, env@) == Some(t@),
                None => self@.stored_text(eid@, env@) is None,
            },
    {
        let ghost vs = self@.values;
        let ghost p = value_is(eid@, env@);
        let mut i: usize = 0;
        while i < self.entry_values.len()
            invariant
                i <= vs.len(),
                vs == self@.values,
                p == value_is(eid@, env@),
                first_index(vs.take(i as int), p) < 0,
            decreases vs.len() - i,
        {
            proof { lemma_first_index_take(vs, i as int, p); }
            if str_eq(self.entry_values[i].entry_id.as_str(), eid) && str_eq(self.entry_values[i].environment_name.as_str(), env) {
                proof { lemma_first_index_prefix(vs, i + 1, p); }
                return Some(self.entry_values[i].encrypted_value.clone());
            }
            i = i + 1;
        }
        assert(vs.take(vs.len() as int) =~= vs);
        None
    }

    /// Resolves the preview of the project at position `i`.
    pub fn resolve_preview_at(&self, i: usize, key: &[u8]) -> (res: Result<ResolvedPreview, AppError>)
        requires
            i < self@.projects.len(),
        ensures
            match self@.preview_at(i as int, key@) {
                Some(p) => res matches Ok(r) && r@ == p,
                None => res matches Err(e) && self@.preview_fault_at(i as int, key@) matches Some(t) && decrypt_error(key@, t, e),
            },
    {
        let ghost s = self@;
        let pid = self.projects[i].id.clone();
        let base = self.projects[i].base_environment.clone();
        let entries = self.sorted_entry_rows(pid.as_str());
        let ghost es = s.sorted_entries(pid@);
        let mut items: Vec<ResolvedEffectiveEnvItem> = Vec::new();
        let mut skipped: Vec<(String, String)> = Vec::new();
        let mut text: Vec<char> = Vec::new();
        let mut k: usize = 0;
        while k < entries.len()
            invariant
                k <= entries@.len(),
                s == self@,
                es == entries@.map_values(|e: EntryRow| e@),
                es == s.sorted_entries(pid@),
                i < s.projects.len(),
                pid@ == s.projects[i as int].id,
                base@ == s.projects[i as int].base,
                s.preview_items(key@, pid@, base@, es.take(k as int)) == Some(items@.map_values(|it: ResolvedEffectiveEnvItem| it@)),
                text@ == joined_lines(items@.map_values(|it: ResolvedEffectiveEnvItem| it@)),
                pairs_view(skipped@) == s.preview_skipped(pid@, base@, es.take(k as int)),
            decreases entries@.len() - k,
        {
            let ghost prev = items@.map_values(|it: ResolvedEffectiveEnvItem| it@);
            assert(es.take(k + 1).drop_last() =~= es.take(k as int));
            assert(es.take(k + 1).last() == es[k as int]);
            let env = match self.override_env(pid.as_str(), entries[k].id.as_str()) {
                Some(e) => e,
                None => base.clone(),
            };
            match self.stored_text(entries[k].id.as_str(), env.as_str()) {
                None => {
                    let ghost before = pairs_view(skipped@);
                    skipped.push((entries[k].name.clone(), env));
                    assert(pairs_view(skipped@) =~= before.push((es[k as int].name, pairs_view(skipped@).last().1)));
                },
                Some(t) => {
                    let value = match decrypt_value(key, t.as_str()) {
                        Ok(v) => v,
                        Err(e) => {
                            proof { lemma_preview_items_none(s, key@, pid@, base@, es, k as int + 1); }
                            return Err(e);
                        },
                    };
                    let line_value = serialize_env_value(value.as_str());
                    let item = ResolvedEffectiveEnvItem {
                        entry_id: entries[k].id.clone(),
                        entry_name: entries[k].name.clone(),
                        source_environment: env,
                        value,
                    };
                    let ghost iv = item@;
                    if items.len() > 0 {
                        text.push('\n');
                    }
                    let name_chars = chars_of(item.entry_name.as_str());
                    let mut c: usize = 0;
                    let ghost start = text@;
                    while c < name_chars.len()
                        invariant
                            c <= name_chars@.len(),
                            text@ == start + name_chars@.take(c as int),
                        decreases name_chars@.len() - c,
                    {
                        text.push(name_chars[c]);
                        assert(name_chars@.take(c + 1) =~= name_chars@.take(c as int).push(name_chars@[c as int]));
                        c = c + 1;
                    }
                    text.push('=');
                    let value_chars = chars_of(line_value.as_str());
                    let mut c: usize = 0;
                    let ghost mid = text@;
                    while c < value_chars.len()
                        invariant
                            c <= value_chars@.len(),
                            text@ == mid + value_chars@.take(c as int),
                        decreases value_chars@.len() - c,
                    {
                        text.push(value_chars[c]);
                        assert(value_chars@.take(c + 1) =~= value_chars@.take(c as int).push(value_chars@[c as int]));
                        c = c + 1;
                    }
                    assert(name_chars@.take(name_chars@.len() as int) =~= name_chars@);
                    assert(value_chars@.take(value_chars@.len() as int) =~= value_chars@);
                    items.push(item);
                    assert(items@.map_values(|it: ResolvedEffectiveEnvItem| it@) =~= prev.push(iv));
                    assert(prev.push(iv).drop_last() =~= prev);
                    assert(text@ =~= joined_lines(prev.push(iv)));
                },
            }
            k = k + 1;
        }
        assert(es.take(es.len() as int) =~= es);
        let preset = if self.has_overrides(pid.as_str()) {
            String::from_str("custom")
        } else {
            String::from_str("all_").concat(base.as_str())
        };
        Ok(ResolvedPreview {
            project_id: pid,
            project_name: self.projects[i].name.clone(),
            preset_label: preset,
            serialized: string_from_chars(text.as_slice()),
            items,
            skipped,
        })
    }
}

/// The warning for an entry left out of a preview.
pub open spec fn skipped_warning_of(name: Seq<char>, env: Seq<char>) -> Seq<char> {
    "warning: `"@ + name + "` has no value for `"@ + env + "`, skipping"@
}

pub fn skipped_warning(name: &str, env: &str) -> (res: String)
    ensures
        res@ == skipped_warning_of(name@, env@),
{
    String::from_str("warning: `").concat(name).concat("` has no value for `").concat(env).concat("`, skipping")
}

/// The public part of a preview item.
pub open spec fn public_item(p: PreviewItemV) -> (Seq<char>, Seq<char>, Seq<char>) {
    (p.entry_id, p.entry_name, p.source_environment)
}

/// The name and value of a preview item, as a variable to set.
pub open spec fn env_var(p: PreviewItemV) -> (Seq<char>, Seq<char>) {
    (p.entry_name, p.value)
}

/// The views of a public preview.
pub open spec fn public_view(r: PreviewResult) -> (Seq<char>, Seq<char>, Seq<char>, Seq<char>, Seq<(Seq<char>, Seq<char>, Seq<char>)>) {
    (r.project_id@, r.project_name@, r.preset_label@, r.serialized@,
        r.items@.map_values(|i: EffectiveEnvItem| (i.entry_id@, i.entry_name@, i.source_environment@)))
}

/// The public form of a preview.
pub open spec fn public_of(p: PreviewV) -> (Seq<char>, Seq<char>, Seq<char>, Seq<char>, Seq<(Seq<char>, Seq<char>, Seq<char>)>) {
    (p.project_id, p.project_name, p.preset_label, p.serialized, p.items.map_values(|i: PreviewItemV| public_item(i)))
}

pub open spec fn no_active_message() -> Seq<char> {
    "no active project selected \u{2014} select a project in sigyn or pass --project"@
}

pub open spec fn stale_active_message() -> Seq<char> {
    "the previously selected project no longer exists \u{2014} select a project in sigyn or pass --project"@
}

pub open spec fn project_named_message(name: Seq<char>) -> Seq<char> {
    "project `"@ + name + "` not found"@
}

/// The decrypted values of an entry as (environment, value), or `None` when
/// one fails to decrypt.
pub open spec fn decrypted_values(key: Seq<u8>, vs: Seq<ValueV>) -> Option<Seq<(Seq<char>, Seq<char>)>>
    decreases vs.len(),
{
    if vs.len() == 0 {
        Some(Seq::empty())
    } else {
        match decrypted_values(key, vs.drop_last()) {
            None => None,
            Some(prev) => match decrypted_text(key, vs.last().encrypted) {
                None => None,
                Some(v) => Some(prev.push((vs.last().environment, v))),
            },
        }
    }
}

/// The stored text of the first of `vs` that does not decrypt, if one does
/// not.
pub open spec fn values_fault(key: Seq<u8>, vs: Seq<ValueV>) -> Option<Seq<char>>
    decreases vs.len(),
{
    if vs.len() == 0 {
        None
    } else {
        match values_fault(key, vs.drop_last()) {
            Some(t) => Some(t),
            None => if decrypted_text(key, vs.last().encrypted) is None { Some(vs.last().encrypted) } else { None },
        }
    }
}

impl StoreV {
    /// Position of the first project whose name equals `name` ignoring ASCII
    /// case, or -1.
    pub open spec fn project_named(self, name: Seq<char>) -> int {
        first_index(self.projects, |p: ProjectV| lower_chars(p.name) == lower_chars(name))
    }

    /// An entry's values, by environment.
    pub open spec fn sorted_values(self, eid: Seq<char>) -> Seq<ValueV> {
        let vs = self.values.filter(value_of_entry(eid));
        arrange(vs, stable_order(value_keys(vs)))
    }
}

impl ResolvedPreview {
    /// The preview without the decrypted values.
    pub fn into_public(self) -> (r: PreviewResult)
        ensures
            public_view(r) == public_of(self@),
    {
        let ghost v = self@;
        let mut items: Vec<EffectiveEnvItem> = Vec::new();
        let mut k: usize = 0;
        while k < self.items.len()
            invariant
                k <= self.items@.len(),
                v == self@,
                items@.map_values(|i: EffectiveEnvItem| (i.entry_id@, i.entry_name@, i.source_environment@))
                    =~= v.items.take(k as int).map_values(|i: PreviewItemV| public_item(i)),
            decreases self.items@.len() - k,
        {
            let it = EffectiveEnvItem {
                entry_id: self.items[k].entry_id.clone(),
                entry_name: self.items[k].entry_name.clone(),
                source_environment: self.items[k].source_environment.clone(),
            };
            let ghost before = items@.map_values(|i: EffectiveEnvItem| (i.entry_id@, i.entry_name@, i.source_environment@));
            let ghost iv = (it.entry_id@, it.entry_name@, it.source_environment@);
            items.push(it);
            assert(items@.map_values(|i: EffectiveEnvItem| (i.entry_id@, i.entry_name@, i.source_environment@)) =~= before.push(iv));
            assert(v.items.take(k + 1) =~= v.items.take(k as int).push(v.items[k as int]));
            k = k + 1;
        }
        assert(v.items.take(v.items.len() as int) =~= v.items);
        PreviewResult {
            project_id: self.project_id,
            project_name: self.project_name,
            preset_label: self.preset_label,
            serialized: self.serialized,
            items,
        }
    }

    /// The variables to set: (entry name, value) of each item.
    pub fn env_vars(&self) -> (r: Vec<(String, String)>)
        ensures
            pairs_view(r@) == self@.items.map_values(|i: PreviewItemV| env_var(i)),
    {
        let mut r: Vec<(String, String)> = Vec::new();
        let mut k: usize = 0;
        while k < self.items.len()
            invariant
                k <= self.items@.len(),
                pairs_view(r@) =~= self@.items.take(k as int).map_values(|i: PreviewItemV| env_var(i)),
            decreases self.items@.len() - k,
        {
            let ghost before = pairs_view(r@);
            r.push((self.items[k].entry_name.clone(), self.items[k].value.clone()));
            assert(pairs_view(r@) =~= before.push(env_var(self@.items[k as int])));
            assert(self@.items.take(k + 1) =~= self@.items.take(k as int).push(self@.items[k as int]));
            k = k + 1;
        }
        assert(self@.items.take(self@.items.len() as int) =~= self@.items);
        r
    }
}

impl Store {
    /// The effective environment of a project, without the values.
    pub fn preview_project(&self, project_id: &str, key: &[u8]) -> (res: Result<PreviewResult, AppError>)
        ensures
            self@.project_index(project_id@) < 0 ==> (res matches Err(e) && is_not_found(e, project_not_found())),
            self@.project_index(project_id@) >= 0 ==> match self@.preview_at(self@.project_index(project_id@), key@) {
                Some(p) => res matches Ok(r) && public_view(r) == public_of(p),
                None => res matches Err(e) && self@.preview_fault_at(self@.project_index(project_id@), key@) matches Some(t) && decrypt_error(key@, t, e),
            },
    {
        match self.project_position(project_id) {
            None => Err(AppError::NotFound(String::from_str("project not found"))),
            Some(i) => match self.resolve_preview_at(i, key) {
                Ok(p) => Ok(p.into_public()),
                Err(e) => Err(e),
            },
        }
    }

    /// The position of the first project named `name`, ignoring ASCII case.
    pub fn project_named(&self, name: &str) -> (r: Option<usize>)
        ensures
            match r {
                Some(i) => i as int == self@.project_named(name@) && i < self@.projects.len(),
                None => self@.project_named(name@) < 0,
            },
    {
        let ghost ps = self@.projects;
        let ghost p = |q: ProjectV| lower_chars(q.name) == lower_chars(name@);
        let mut i: usize = 0;
        while i < self.projects.len()
            invariant
                i <= ps.len(),
                ps == self@.projects,
                p == (|q: ProjectV| lower_chars(q.name) == lower_chars(name@)),
                first_index(ps.take(i as int), p) < 0,
            decreases ps.len() - i,
        {
            proof { lemma_first_index_take(ps, i as int, p); }
            if str_nocase_eq(self.projects[i].name.as_str(), name) {
                proof { lemma_first_index_prefix(ps, i + 1, p); }
                return Some(i);
            }
            i = i + 1;
        }
        assert(ps.take(ps.len() as int) =~= ps);
        None
    }

    /// The working directory, serialized environment and variables of the
    /// project named `project_name` (ignoring ASCII case), and the entries
    /// left out for want of a value.
    pub fn preview_project_by_name(&self, project_name: &str, key: &[u8]) -> (res: Result<(Option<String>, String, Vec<(String, String)>, Vec<(String, String)>), AppError>)
        ensures
            self@.project_named(project_name@) < 0 ==> (res matches Err(e) && is_not_found(e, project_named_message(project_name@))),
            self@.project_named(project_name@) >= 0 ==> {
                let q = self@.projects[self@.project_named(project_name@)];
                let i = self@.project_index(q.id);
                match self@.preview_at(i, key@) {
                    Some(p) => res matches Ok(r) && opt_view(r.0) == q.working_directory && r.1@ == p.serialized
                        && pairs_view(r.2@) == p.items.map_values(|it: PreviewItemV| env_var(it))
                        && pairs_view(r.3@) == p.skipped,
                    None => res matches Err(e) && self@.preview_fault_at(i, key@) matches Some(t) && decrypt_error(key@, t, e),
                }
            },
    {
        let j = match self.project_named(project_name) {
            None => {
                let msg = String::from_str("project `").concat(project_name).concat("` not found");
                return Err(AppError::NotFound(msg));
            },
            Some(j) => j,
        };
        let working_directory = copy_opt(&self.projects[j].working_directory);
        let i = match self.project_position(self.projects[j].id.as_str()) {
            Some(i) => i,
            None => {
                proof { lemma_first_index(self@.projects, crate::store::project_has_id(self@.projects[j as int].id)); }
                assert(crate::store::project_has_id(self@.projects[j as int].id)(self@.projects[j as int]));
                return Err(AppError::NotFound(String::from_str("project not found")));
            },
        };
        match self.resolve_preview_at(i, key) {
            Ok(p) => {
                let vars = p.env_vars();
                Ok((working_directory, p.serialized, vars, p.skipped))
            },
            Err(e) => Err(e),
        }
    }

    /// The name, working directory, serialized environment and variables of
    /// the active project, and the entries left out for want of a value.
    pub fn preview_active_project(&self, key: &[u8]) -> (res: Result<(String, Option<String>, String, Vec<(String, String)>, Vec<(String, String)>), AppError>)
        ensures
            match self@.active {
                None => res matches Err(e) && is_validation(e, no_active_message()),
                Some(a) => if self@.project_index(a) < 0 {
                    res matches Err(e) && is_validation(e, stale_active_message())
                } else {
                    let i = self@.project_index(a);
                    match self@.preview_at(i, key@) {
                        Some(p) => res matches Ok(r) && r.0@ == self@.projects[i].name
                            && opt_view(r.1) == self@.projects[i].working_directory && r.2@ == p.serialized
                            && pairs_view(r.3@) == p.items.map_values(|it: PreviewItemV| env_var(it))
                            && pairs_view(r.4@) == p.skipped,
                        None => res matches Err(e) && self@.preview_fault_at(i, key@) matches Some(t) && decrypt_error(key@, t, e),
                    }
                },
            },
    {
        let active = match &self.active_project_id {
            None => {
                return Err(AppError::Validation(String::from_str("no active project selected \u{2014} select a project in sigyn or pass --project")));
            },
            Some(a) => a,
        };
        let i = match self.project_position(active.as_str()) {
            None => {
                return Err(AppError::Validation(String::from_str("the previously selected project no longer exists \u{2014} select a project in sigyn or pass --project")));
            },
            Some(i) => i,
        };
        let name = self.projects[i].name.clone();
        let working_directory = copy_opt(&self.projects[i].working_directory);
        match self.resolve_preview_at(i, key) {
            Ok(p) => {
                let vars = p.env_vars();
                Ok((name, working_directory, p.serialized, vars, p.skipped))
            },
            Err(e) => Err(e),
        }
    }

    /// An entry's values, by environment.
    pub fn sorted_value_rows(&self, eid: &str) -> (r: Vec<ValueRow>)
        ensures
            r@.map_values(|v: ValueRow| v@) == self@.sorted_values(eid@),
    {
        let ghost all = self@.values;
        let ghost p = value_of_entry(eid@);
        let mut vs: Vec<ValueRow> = Vec::new();
        let mut i: usize = 0;
        while i < self.entry_values.len()
            invariant
                i <= all.len(),
                all == self@.values,
                p == value_of_entry(eid@),
                vs@.map_values(|r: ValueRow| r@) == all.take(i as int).filter(p),
            decreases all.len() - i,
        {
            proof { lemma_filter_take(all, i as int, p); }
            if str_eq(self.entry_values[i].entry_id.as_str(), eid) {
                vs.push(self.entry_values[i].copy());
                assert(vs@.map_values(|r: ValueRow| r@) =~= all.take(i as int).filter(p).push(all[i as int]));
            }
            i = i + 1;
        }
        proof { lemma_filter_all(all, p); }
        let ghost vsv = vs@.map_values(|r: ValueRow| r@);
        let mut keys: Vec<Vec<char>> = Vec::new();
        let mut i: usize = 0;
        while i < vs.len()
            invariant
                i <= vs@.len(),
                vsv == vs@.map_values(|r: ValueRow| r@),
                keys_view(keys@) =~= value_keys(vsv.take(i as int)),
            decreases vs@.len() - i,
        {
            let k = lowered(vs[i].environment_name.as_str());
            keys.push(k);
            assert(value_keys(vsv.take(i + 1)) =~= value_keys(vsv.take(i as int)).push(k@));
            i = i + 1;
        }
        assert(vsv.take(vsv.len() as int) =~= vsv);
        let order = stable_sort(&keys);
        let ghost o = positions(order@);
        let mut r: Vec<ValueRow> = Vec::new();
        let mut k: usize = 0;
        while k < order.len()
            invariant
                k <= order@.len(),
                o == positions(order@),
                vsv == vs@.map_values(|r: ValueRow| r@),
                forall|j: int| 0 <= j < order@.len() ==> order@[j] < vs@.len(),
                r@.map_values(|v: ValueRow| v@) =~= o.take(k as int).map_values(|j: int| vsv[j]),
            decreases order@.len() - k,
        {
            let j = order[k];
            let row = vs[j].copy();
            let ghost before = r@.map_values(|v: ValueRow| v@);
            r.push(row);
            assert(r@.map_values(|v: ValueRow| v@) =~= before.push(vsv[j as int]));
            assert(o.take(k + 1) =~= o.take(k as int).push(j as int));
            k = k + 1;
        }
        assert(o.take(o.len() as int) =~= o);
        r
    }

    /// The decrypted values of an entry of a project, by environment.
    pub fn get_entry_values(&self, project_id: &str, entry_id: &str, key: &[u8]) -> (res: Result<EntryValuesResult, AppError>)
        ensures
            first_index(self@.entries, entry_in_project(entry_id@, project_id@)) < 0 ==> (res matches Err(e) && is_not_found(e, entry_not_found())),
            first_index(self@.entries, entry_in_project(entry_id@, project_id@)) >= 0 ==> match decrypted_values(key@, self@.sorted_values(entry_id@)) {
                Some(vals) => res matches Ok(r) && r.entry_id@ == entry_id@
                    && r.values@.map_values(|d: DecryptedEntryValue| (d.environment@, d.value@)) == vals,
                None => res matches Err(e) && values_fault(key@, self@.sorted_values(entry_id@)) matches Some(t) && decrypt_error(key@, t, e),
            },
    {
        if self.entry_position(entry_id, project_id).is_none() {
            return Err(AppError::NotFound(String::from_str("entry not found")));
        }
        let rows = self.sorted_value_rows(entry_id);
        let ghost vs = self@.sorted_values(entry_id@);
        let mut values: Vec<DecryptedEntryValue> = Vec::new();
        let mut k: usize = 0;
        while k < rows.len()
            invariant
                k <= rows@.len(),
                vs == rows@.map_values(|v: ValueRow| v@),
                vs == self@.sorted_values(entry_id@),
                first_index(self@.entries, entry_in_project(entry_id@, project_id@)) >= 0,
                decrypted_values(key@, vs.take(k as int)) == Some(values@.map_values(|d: DecryptedEntryValue| (d.environment@, d.value@))),
            decreases rows@.len() - k,
        {
            assert(vs.take(k + 1).drop_last() =~= vs.take(k as int));
            let value = match decrypt_value(key, rows[k].encrypted_value.as_str()) {
                Ok(v) => v,
                Err(e) => {
                    proof { lemma_decrypted_values_none(key@, vs, k as int + 1); }
                    return Err(e);
                },
            };
            let ghost before = values@.map_values(|d: DecryptedEntryValue| (d.environment@, d.value@));
            values.push(DecryptedEntryValue { environment: rows[k].environment_name.clone(), value });
            assert(values@.map_values(|d: DecryptedEntryValue| (d.environment@, d.value@)) =~= before.push((vs[k as int].environment, values@.last().value@)));
            k = k + 1;
        }
        assert(vs.take(vs.len() as int) =~= vs);
        Ok(EntryValuesResult { entry_id: String::from_str(entry_id), values })
    }
}

/// Values that decrypt have no failing text.
proof fn lemma_values_fault_none(key: Seq<u8>, vs: Seq<ValueV>)
    requires
        decrypted_values(key, vs) is Some,
    ensures
        values_fault(key, vs) is None,
    decreases vs.len(),
{
    if vs.len() > 0 {
        lemma_values_fault_none(key, vs.drop_last());
    }
}

proof fn lemma_decrypted_values_none(key: Seq<u8>, vs: Seq<ValueV>, n: int)
    requires
        0 < n <= vs.len(),
        decrypted_values(key, vs.take(n - 1)) is Some,
        decrypted_text(key, vs[n - 1].encrypted) is None,
    ensures
        decrypted_values(key, vs) is None,
        values_fault(key, vs) == Some(vs[n - 1].encrypted),
    decreases vs.len(),
{
    assert(vs.take(n).drop_last() =~= vs.take(n - 1));
    lemma_values_fault_none(key, vs.take(n - 1));
    if n < vs.len() {
        assert(vs.drop_last().take(n - 1) =~= vs.take(n - 1));
        lemma_decrypted_values_none(key, vs.drop_last(), n);
    } else {
        assert(vs.take(n) =~= vs);
    }
}

/// Entries whose preview resolves have no failing text.
proof fn lemma_preview_fault_none(s: StoreV, key: Seq<u8>, pid: Seq<char>, base: Seq<char>, es: Seq<EntryV>)
    requires
        s.preview_items(key, pid, base, es) is Some,
    ensures
        s.preview_fault(key, pid, base, es) is None,
    decreases es.len(),
{
    if es.len() > 0 {
        lemma_preview_fault_none(s, key, pid, base, es.drop_last());
    }
}

proof fn lemma_preview_items_none(s: StoreV, key: Seq<u8>, pid: Seq<char>, base: Seq<char>, es: Seq<EntryV>, n: int)
    requires
        0 < n <= es.len(),
        s.preview_items(key, pid, base, es.take(n - 1)) is Some,
        ({
            let e = es[n - 1];
            let env = s.source_env(pid, base, e.id);
            s.stored_text(e.id, env) matches Some(t) && decrypted_text(key, t) is None
        }),
    ensures
        s.preview_items(key, pid, base, es) is None,
        s.preview_fault(key, pid, base, es) == s.stored_text(es[n - 1].id, s.source_env(pid, base, es[n - 1].id)),
    decreases es.len(),
{
    assert(es.take(n).drop_last() =~= es.take(n - 1));
    lemma_preview_fault_none(s, key, pid, base, es.take(n - 1));
    if n < es.len() {
        assert(es.drop_last().take(n - 1) =~= es.take(n - 1));
        lemma_preview_items_none(s, key, pid, base, es.drop_last(), n);
    } else {
        assert(es.take(n) =~= es);
    }
}

} // verus!
