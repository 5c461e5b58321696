//! The store's consistency, which the schema's keys and references and the
//! operations' checks keep: every operation that succeeds on a consistent
//! store leaves it consistent.

use vstd::prelude::*;
use crate::seqs::{first_index, lemma_first_index};
use crate::store::{
    entry_ids, entry_in_project, entry_not_in_project, entry_not_of_project, entry_of_project, override_is, override_not,
    override_not_in, override_not_of_entry, override_not_of_project, project_has_id, project_not_id, value_not_in,
    value_not_of_entry, EntryV, OverrideV, ProjectV, StoreV, ValueV,
};
use crate::entries::{entry_has_id, value_rows};
use crate::import::{entry_named, import_fold};
use crate::model::{EntryValueInput, ImportEntryItem};
use crate::normalize::{dedup, env_label_of, env_labels, keys_increasing, lemma_dedup_nonempty};
use crate::order::{lemma_lex_irreflexive, lex_lt};
use crate::text::trim;

verus! {

/// An entry's project and name, unique among entries.
pub open spec fn entry_key(e: EntryV) -> (Seq<char>, Seq<char>) {
    (e.project_id, e.name)
}

/// A value's entry and environment, unique among values.
pub open spec fn value_key(v: ValueV) -> (Seq<char>, Seq<char>) {
    (v.entry_id, v.environment)
}

/// An override's project and entry, unique among overrides.
pub open spec fn override_key(o: OverrideV) -> (Seq<char>, Seq<char>) {
    (o.project_id, o.entry_id)
}

pub open spec fn by_entry_key() -> spec_fn(EntryV) -> (Seq<char>, Seq<char>) {
    |e: EntryV| entry_key(e)
}

pub open spec fn by_value_key() -> spec_fn(ValueV) -> (Seq<char>, Seq<char>) {
    |v: ValueV| value_key(v)
}

pub open spec fn by_override_key() -> spec_fn(OverrideV) -> (Seq<char>, Seq<char>) {
    |o: OverrideV| override_key(o)
}

/// No two elements have the same key.
pub open spec fn keys_distinct<T, K>(s: Seq<T>, key: spec_fn(T) -> K) -> bool {
    forall|i: int, j: int| 0 <= i < j < s.len() ==> key(#[trigger] s[i]) != key(#[trigger] s[j])
}

/// Pushing an element whose key is new keeps keys distinct.
pub proof fn lemma_push_distinct<T, K>(s: Seq<T>, x: T, key: spec_fn(T) -> K)
    requires
        keys_distinct(s, key),
        forall|i: int| 0 <= i < s.len() ==> key(#[trigger] s[i]) != key(x),
    ensures
        keys_distinct(s.push(x), key),
{
    let t = s.push(x);
    assert forall|i: int, j: int| 0 <= i < j < t.len() implies key(#[trigger] t[i]) != key(#[trigger] t[j]) by {
        assert(t[i] == s[i]);
        if j < s.len() {
            assert(t[j] == s[j]);
        }
    }
}

/// A map that keeps each key keeps keys distinct.
pub proof fn lemma_map_distinct<T, K>(s: Seq<T>, f: spec_fn(T) -> T, key: spec_fn(T) -> K)
    requires
        keys_distinct(s, key),
        forall|x: T| #[trigger] key(f(x)) == key(x),
    ensures
        keys_distinct(s.map_values(f), key),
{
    let t = s.map_values(f);
    assert forall|i: int, j: int| 0 <= i < j < t.len() implies key(#[trigger] t[i]) != key(#[trigger] t[j]) by {
        assert(key(f(s[i])) == key(s[i]));
        assert(key(f(s[j])) == key(s[j]));
    }
}

/// Two sequences with distinct keys and no key in common keep keys distinct
/// when joined.
pub proof fn lemma_concat_distinct<T, K>(a: Seq<T>, b: Seq<T>, key: spec_fn(T) -> K)
    requires
        keys_distinct(a, key),
        keys_distinct(b, key),
        forall|i: int, j: int| 0 <= i < a.len() && 0 <= j < b.len() ==> key(#[trigger] a[i]) != key(#[trigger] b[j]),
    ensures
        keys_distinct(a + b, key),
{
    let t = a + b;
    assert forall|i: int, j: int| 0 <= i < j < t.len() implies key(#[trigger] t[i]) != key(#[trigger] t[j]) by {
        if j < a.len() {
            assert(t[i] == a[i] && t[j] == a[j]);
        } else if i < a.len() {
            assert(t[i] == a[i] && t[j] == b[j - a.len()]);
        } else {
            assert(t[i] == b[i - a.len()] && t[j] == b[j - a.len()]);
        }
    }
}

impl StoreV {
    /// Some project has the id.
    pub open spec fn has_project(self, id: Seq<char>) -> bool {
        exists|i: int| 0 <= i < self.projects.len() && (#[trigger] self.projects[i]).id == id
    }

    /// Some entry has the id.
    pub open spec fn has_entry(self, id: Seq<char>) -> bool {
        exists|k: int| 0 <= k < self.entries.len() && (#[trigger] self.entries[k]).id == id
    }

    /// The override names an entry of its project and an environment that
    /// the project supports other than its base.
    pub open spec fn override_fits(self, o: OverrideV) -> bool {
        &&& exists|i: int| 0 <= i < self.projects.len() && (#[trigger] self.projects[i]).id == o.project_id
            && self.projects[i].supported.contains(o.environment) && o.environment != self.projects[i].base
        &&& exists|k: int| 0 <= k < self.entries.len() && (#[trigger] self.entries[k]).id == o.entry_id
            && self.entries[k].project_id == o.project_id
    }

    /// Project ids and names are unique, and entry ids, an entry's name within
    /// its project, a value's environment within its entry and an override's
    /// entry within its project; each project's base environment is one it
    /// supports; entries belong to projects, values to entries, and overrides
    /// fit.
    pub open spec fn consistent(self) -> bool {
        &&& forall|i: int, j: int| 0 <= i < j < self.projects.len() ==> (#[trigger] self.projects[i]).id != (#[trigger] self.projects[j]).id
        &&& forall|i: int, j: int| 0 <= i < j < self.projects.len() ==> (#[trigger] self.projects[i]).name != (#[trigger] self.projects[j]).name
        &&& forall|i: int| 0 <= i < self.projects.len() ==> (#[trigger] self.projects[i]).supported.contains(self.projects[i].base)
        &&& forall|i: int, j: int| 0 <= i < j < self.entries.len() ==> (#[trigger] self.entries[i]).id != (#[trigger] self.entries[j]).id
        &&& keys_distinct(self.entries, by_entry_key())
        &&& keys_distinct(self.values, by_value_key())
        &&& keys_distinct(self.overrides, by_override_key())
        &&& forall|k: int| 0 <= k < self.entries.len() ==> self.has_project((#[trigger] self.entries[k]).project_id)
        &&& forall|k: int| 0 <= k < self.values.len() ==> self.has_entry((#[trigger] self.values[k]).entry_id)
        &&& forall|k: int| 0 <= k < self.overrides.len() ==> self.override_fits(#[trigger] self.overrides[k])
    }
}

// ---------------------------------------------------------------- filters

/// Each element of a filtered sequence is an element of the sequence.
pub proof fn lemma_filter_from<T>(s: Seq<T>, p: spec_fn(T) -> bool)
    ensures
        forall|k: int| #![trigger s.filter(p)[k]] 0 <= k < s.filter(p).len() ==> exists|j: int| 0 <= j < s.len() && #[trigger] s[j] == s.filter(p)[k],
    decreases s.len(),
{
    reveal(Seq::filter);
    if s.len() > 0 {
        let d = s.drop_last();
        lemma_filter_from(d, p);
        assert forall|k: int| #![trigger s.filter(p)[k]] 0 <= k < s.filter(p).len() implies exists|j: int| 0 <= j < s.len() && #[trigger] s[j] == s.filter(p)[k] by {
            if k < d.filter(p).len() {
                let j = choose|j: int| 0 <= j < d.len() && #[trigger] d[j] == d.filter(p)[k];
                assert(s[j] == d[j]);
            } else {
                assert(s[s.len() - 1] == s.filter(p)[k]);
            }
        }
    }
}

/// An element that passes the filter is in the filtered sequence.
pub proof fn lemma_filter_to<T>(s: Seq<T>, p: spec_fn(T) -> bool, j: int)
    requires
        0 <= j < s.len(),
        p(s[j]),
    ensures
        exists|k: int| 0 <= k < s.filter(p).len() && #[trigger] s.filter(p)[k] == s[j],
{
    s.lemma_filter_contains(p, j);
}

/// Filtering keeps distinct keys distinct.
pub proof fn lemma_filter_distinct<T, K>(s: Seq<T>, p: spec_fn(T) -> bool, key: spec_fn(T) -> K)
    requires
        forall|i: int, j: int| 0 <= i < j < s.len() ==> key(#[trigger] s[i]) != key(#[trigger] s[j]),
    ensures
        forall|i: int, j: int| 0 <= i < j < s.filter(p).len() ==> key(#[trigger] s.filter(p)[i]) != key(#[trigger] s.filter(p)[j]),
    decreases s.len(),
{
    reveal(Seq::filter);
    if s.len() > 0 {
        let d = s.drop_last();
        lemma_filter_distinct(d, p, key);
        lemma_filter_from(d, p);
        let f = s.filter(p);
        let g = d.filter(p);
        assert forall|i: int, j: int| 0 <= i < j < f.len() implies key(#[trigger] f[i]) != key(#[trigger] f[j]) by {
            if j < g.len() {
                assert(f[i] == g[i] && f[j] == g[j]);
            } else {
                assert(f[i] == g[i]);
                let m = choose|m: int| 0 <= m < d.len() && #[trigger] d[m] == g[i];
                assert(s[m] == d[m]);
                assert(f[j] == s[s.len() - 1]);
            }
        }
    }
}

// ---------------------------------------------------------------- operations

/// Selecting a project keeps the store consistent.
pub proof fn lemma_select_project_consistent(s: StoreV, id: Seq<char>)
    requires
        s.consistent(),
        s.select_project(id) is Ok,
    ensures
        s.select_project(id)->Ok_0.consistent(),
{
    let t = s.select_project(id)->Ok_0;
    assert forall|k: int| 0 <= k < t.entries.len() implies t.has_project((#[trigger] t.entries[k]).project_id) by {
        assert(s.has_project(s.entries[k].project_id));
    }
    assert forall|k: int| 0 <= k < t.values.len() implies t.has_entry((#[trigger] t.values[k]).entry_id) by {
        assert(s.has_entry(s.values[k].entry_id));
    }
    assert forall|k: int| 0 <= k < t.overrides.len() implies t.override_fits(#[trigger] t.overrides[k]) by {
        assert(s.override_fits(s.overrides[k]));
    }
}

/// Resetting a project's overrides keeps the store consistent.
pub proof fn lemma_reset_overrides_consistent(s: StoreV, pid: Seq<char>)
    requires
        s.consistent(),
    ensures
        s.reset_overrides(pid).consistent(),
{
    let t = s.reset_overrides(pid);
    lemma_filter_distinct(s.overrides, override_not_of_project(pid), by_override_key());
    assert forall|k: int| 0 <= k < t.entries.len() implies t.has_project((#[trigger] t.entries[k]).project_id) by {
        assert(s.has_project(s.entries[k].project_id));
    }
    assert forall|k: int| 0 <= k < t.values.len() implies t.has_entry((#[trigger] t.values[k]).entry_id) by {
        assert(s.has_entry(s.values[k].entry_id));
    }
    lemma_filter_from(s.overrides, override_not_of_project(pid));
    assert forall|k: int| 0 <= k < t.overrides.len() implies t.override_fits(#[trigger] t.overrides[k]) by {
        let j = choose|j: int| 0 <= j < s.overrides.len() && #[trigger] s.overrides[j] == t.overrides[k];
        assert(s.override_fits(s.overrides[j]));
    }
}

/// A project's position is the only one with its id.
proof fn lemma_project_at(s: StoreV, pid: Seq<char>, i: int)
    requires
        s.consistent(),
        0 <= i < s.projects.len(),
        s.projects[i].id == pid,
    ensures
        s.project_index(pid) == i,
{
    lemma_first_index(s.projects, project_has_id(pid));
    let f = s.project_index(pid);
    if f != i {
        assert(f < i);
        assert(s.projects[f].id == pid);
    }
}

/// Changing the projects without changing their ids keeps every entry's
/// project.
proof fn lemma_same_ids_keep_entries(s: StoreV, t: StoreV)
    requires
        s.consistent(),
        t.projects.len() == s.projects.len(),
        forall|i: int| 0 <= i < s.projects.len() ==> (#[trigger] t.projects[i]).id == s.projects[i].id,
        t.entries == s.entries,
        t.values == s.values,
    ensures
        forall|k: int| 0 <= k < t.entries.len() ==> t.has_project((#[trigger] t.entries[k]).project_id),
        forall|k: int| 0 <= k < t.values.len() ==> t.has_entry((#[trigger] t.values[k]).entry_id),
        forall|i: int, j: int| 0 <= i < j < t.projects.len() ==> (#[trigger] t.projects[i]).id != (#[trigger] t.projects[j]).id,
{
    assert forall|k: int| 0 <= k < t.entries.len() implies t.has_project((#[trigger] t.entries[k]).project_id) by {
        assert(s.has_project(s.entries[k].project_id));
        let i = choose|i: int| 0 <= i < s.projects.len() && (#[trigger] s.projects[i]).id == s.entries[k].project_id;
        assert(t.projects[i].id == s.projects[i].id);
    }
    assert forall|k: int| 0 <= k < t.values.len() implies t.has_entry((#[trigger] t.values[k]).entry_id) by {
        assert(s.has_entry(s.values[k].entry_id));
    }
    assert forall|i: int, j: int| 0 <= i < j < t.projects.len() implies (#[trigger] t.projects[i]).id != (#[trigger] t.projects[j]).id by {
        assert(s.projects[i].id != s.projects[j].id);
    }
}

/// Setting a project's base environment keeps the store consistent.
pub proof fn lemma_set_base_environment_consistent(s: StoreV, pid: Seq<char>, environment: Seq<char>)
    requires
        s.consistent(),
        s.set_base_environment(pid, environment) is Ok,
    ensures
        s.set_base_environment(pid, environment)->Ok_0.consistent(),
{
    let t = s.set_base_environment(pid, environment)->Ok_0;
    let l = env_label_of(environment);
    let pi = s.project_index(pid);
    lemma_first_index(s.projects, project_has_id(pid));
    lemma_same_ids_keep_entries(s, t);
    lemma_filter_distinct(s.overrides, override_not_of_project(pid), by_override_key());
    assert forall|i: int| 0 <= i < t.projects.len() implies (#[trigger] t.projects[i]).supported.contains(t.projects[i].base) by {
        if s.projects[i].id == pid {
            lemma_project_at(s, pid, i);
        }
    }
    assert forall|i: int, j: int| 0 <= i < j < t.projects.len() implies (#[trigger] t.projects[i]).name != (#[trigger] t.projects[j]).name by {
        assert(s.projects[i].name != s.projects[j].name);
    }
    lemma_filter_from(s.overrides, override_not_of_project(pid));
    assert forall|k: int| 0 <= k < t.overrides.len() implies t.override_fits(#[trigger] t.overrides[k]) by {
        let j = choose|j: int| 0 <= j < s.overrides.len() && #[trigger] s.overrides[j] == t.overrides[k];
        s.overrides.lemma_filter_pred(override_not_of_project(pid), k);
        let o = s.overrides[j];
        assert(s.override_fits(o));
        let i = choose|i: int| 0 <= i < s.projects.len() && (#[trigger] s.projects[i]).id == o.project_id
            && s.projects[i].supported.contains(o.environment) && o.environment != s.projects[i].base;
        assert(t.projects[i] == s.projects[i]);
        let e = choose|e: int| 0 <= e < s.entries.len() && (#[trigger] s.entries[e]).id == o.entry_id
            && s.entries[e].project_id == o.project_id;
        assert(t.entries[e] == s.entries[e]);
    }
}

/// An override of an existing entry of a project, to an environment the
/// project supports other than its base, fits.
proof fn lemma_new_override_fits(s: StoreV, pid: Seq<char>, eid: Seq<char>, env: Seq<char>)
    requires
        s.project_index(pid) >= 0,
        s.projects[s.project_index(pid)].supported.contains(env),
        env != s.projects[s.project_index(pid)].base,
        first_index(s.entries, crate::store::entry_in_project(eid, pid)) >= 0,
    ensures
        s.override_fits(OverrideV { project_id: pid, entry_id: eid, environment: env }),
{
    lemma_first_index(s.projects, project_has_id(pid));
    lemma_first_index(s.entries, crate::store::entry_in_project(eid, pid));
    let i = s.project_index(pid);
    let k = first_index(s.entries, crate::store::entry_in_project(eid, pid));
    assert(s.projects[i].id == pid);
    assert(s.entries[k].id == eid && s.entries[k].project_id == pid);
}

/// Setting or clearing an entry's override keeps the store consistent.
pub proof fn lemma_set_entry_override_consistent(s: StoreV, pid: Seq<char>, eid: Seq<char>, env: Option<Seq<char>>)
    requires
        s.consistent(),
        s.set_entry_override(pid, eid, env) is Ok,
    ensures
        s.set_entry_override(pid, eid, env)->Ok_0.consistent(),
{
    let t = s.set_entry_override(pid, eid, env)->Ok_0;
    lemma_same_ids_keep_entries(s, t);
    let clear = s.without_override(pid, eid);
    lemma_filter_from(s.overrides, override_not(pid, eid));
    lemma_filter_distinct(s.overrides, override_not(pid, eid), by_override_key());
    assert forall|k: int| 0 <= k < clear.overrides.len() implies clear.override_fits(#[trigger] clear.overrides[k]) by {
        let j = choose|j: int| 0 <= j < s.overrides.len() && #[trigger] s.overrides[j] == clear.overrides[k];
        assert(s.override_fits(s.overrides[j]));
    }
    match env {
        None => {},
        Some(e) => {
            let l = env_label_of(e);
            let pi = s.project_index(pid);
            if l != s.projects[pi].base {
                lemma_new_override_fits(s, pid, eid, l);
                let k0 = first_index(s.overrides, override_is(pid, eid));
                lemma_first_index(s.overrides, override_is(pid, eid));
                if k0 >= 0 {
                    let f = |o: OverrideV| if o.project_id == pid && o.entry_id == eid { OverrideV { environment: l, ..o } } else { o };
                    assert(t.overrides == s.overrides.map_values(f));
                    assert forall|x: OverrideV| #[trigger] by_override_key()(f(x)) == by_override_key()(x) by {}
                    lemma_map_distinct(s.overrides, f, by_override_key());
                    assert forall|k: int| 0 <= k < t.overrides.len() implies t.override_fits(#[trigger] t.overrides[k]) by {
                        assert(s.override_fits(s.overrides[k]));
                        if s.overrides[k].project_id == pid && s.overrides[k].entry_id == eid {
                            assert(t.overrides[k] == OverrideV { project_id: pid, entry_id: eid, environment: l });
                        }
                    }
                } else {
                    let o = OverrideV { project_id: pid, entry_id: eid, environment: l };
                    assert(t.overrides == s.overrides.push(o));
                    assert forall|i: int| 0 <= i < s.overrides.len() implies by_override_key()(#[trigger] s.overrides[i]) != by_override_key()(o) by {
                        assert(!override_is(pid, eid)(s.overrides[i]));
                    }
                    lemma_push_distinct(s.overrides, o, by_override_key());
                    assert forall|k: int| 0 <= k < t.overrides.len() implies t.override_fits(#[trigger] t.overrides[k]) by {
                        if k < s.overrides.len() {
                            assert(s.override_fits(s.overrides[k]));
                        }
                    }
                }
            }
        },
    }
}

impl StoreV {
    /// Every override names an entry of its project and an environment that
    /// the project supports other than its base.
    pub open spec fn overrides_fit(self) -> bool {
        forall|k: int| 0 <= k < self.overrides.len() ==> self.override_fits(#[trigger] self.overrides[k])
    }
}

/// Setting or clearing an entry's override keeps every override fitting;
/// a refused change leaves the overrides as they were.
pub proof fn lemma_set_entry_override_keeps_overrides_fit(s: StoreV, pid: Seq<char>, eid: Seq<char>, env: Option<Seq<char>>)
    requires
        s.overrides_fit(),
    ensures
        s.set_entry_override(pid, eid, env) matches Ok(t) ==> t.overrides_fit(),
{
    if s.set_entry_override(pid, eid, env) is Ok {
        let t = s.set_entry_override(pid, eid, env)->Ok_0;
        let clear = s.without_override(pid, eid);
        lemma_filter_from(s.overrides, override_not(pid, eid));
        assert forall|k: int| 0 <= k < clear.overrides.len() implies clear.override_fits(#[trigger] clear.overrides[k]) by {
            let j = choose|j: int| 0 <= j < s.overrides.len() && #[trigger] s.overrides[j] == clear.overrides[k];
            assert(s.override_fits(s.overrides[j]));
        }
        match env {
            None => {},
            Some(e) => {
                let l = env_label_of(e);
                let pi = s.project_index(pid);
                if l != s.projects[pi].base {
                    lemma_new_override_fits(s, pid, eid, l);
                    let k0 = first_index(s.overrides, override_is(pid, eid));
                    assert forall|k: int| 0 <= k < t.overrides.len() implies t.override_fits(#[trigger] t.overrides[k]) by {
                        if k < s.overrides.len() {
                            assert(s.override_fits(s.overrides[k]));
                            if k0 >= 0 && s.overrides[k].project_id == pid && s.overrides[k].entry_id == eid {
                                assert(t.overrides[k] == OverrideV { project_id: pid, entry_id: eid, environment: l });
                            }
                        }
                    }
                }
            },
        }
    }
}

/// Renaming a project keeps the store consistent.
pub proof fn lemma_rename_project_consistent(s: StoreV, pid: Seq<char>, name: Seq<char>)
    requires
        s.consistent(),
        s.rename_project(pid, name) is Ok,
    ensures
        s.rename_project(pid, name)->Ok_0.consistent(),
{
    let t = s.rename_project(pid, name)->Ok_0;
    lemma_same_ids_keep_entries(s, t);
    assert forall|i: int, j: int| 0 <= i < j < t.projects.len() implies (#[trigger] t.projects[i]).name != (#[trigger] t.projects[j]).name by {
        assert(s.projects[i].name != s.projects[j].name);
        assert(s.projects[i].id != s.projects[j].id);
    }
    assert forall|k: int| 0 <= k < t.overrides.len() implies t.override_fits(#[trigger] t.overrides[k]) by {
        let o = s.overrides[k];
        assert(s.override_fits(o));
        let i = choose|i: int| 0 <= i < s.projects.len() && (#[trigger] s.projects[i]).id == o.project_id
            && s.projects[i].supported.contains(o.environment) && o.environment != s.projects[i].base;
        assert(t.projects[i].id == o.project_id);
    }
}

/// Updating a project keeps the store consistent: no environment it
/// supports is removed and its base is kept.
pub proof fn lemma_update_project_consistent(s: StoreV, pid: Seq<char>, name: Seq<char>, envs: Seq<String>, wd: Option<Seq<char>>)
    requires
        s.consistent(),
        s.update_project(pid, name, envs, wd) is Ok,
    ensures
        s.update_project(pid, name, envs, wd)->Ok_0.consistent(),
{
    let t = s.update_project(pid, name, envs, wd)->Ok_0;
    let labels = dedup(env_labels(envs));
    let pi = s.project_index(pid);
    let existing = s.projects[pi].supported;
    let gone = |e: Seq<char>| !labels.contains(e);
    lemma_first_index(existing, gone);
    assert forall|m: int| 0 <= m < existing.len() implies labels.contains(#[trigger] existing[m]) by {
        assert(!gone(existing[m]));
    }
    lemma_first_index(s.projects, project_has_id(pid));
    lemma_same_ids_keep_entries(s, t);
    assert forall|i: int, j: int| 0 <= i < j < t.projects.len() implies (#[trigger] t.projects[i]).name != (#[trigger] t.projects[j]).name by {
        assert(s.projects[i].name != s.projects[j].name);
        assert(s.projects[i].id != s.projects[j].id);
    }
    assert forall|i: int| 0 <= i < t.projects.len() implies (#[trigger] t.projects[i]).supported.contains(t.projects[i].base) by {
        if s.projects[i].id == pid {
            lemma_project_at(s, pid, i);
            let m = choose|m: int| 0 <= m < existing.len() && existing[m] == s.projects[i].base;
            assert(labels.contains(existing[m]));
        }
    }
    assert forall|k: int| 0 <= k < t.overrides.len() implies t.override_fits(#[trigger] t.overrides[k]) by {
        let o = s.overrides[k];
        assert(s.override_fits(o));
        let i = choose|i: int| 0 <= i < s.projects.len() && (#[trigger] s.projects[i]).id == o.project_id
            && s.projects[i].supported.contains(o.environment) && o.environment != s.projects[i].base;
        if o.project_id == pid {
            lemma_project_at(s, pid, i);
            let m = choose|m: int| 0 <= m < existing.len() && existing[m] == o.environment;
            assert(labels.contains(existing[m]));
        }
        assert(t.projects[i].id == o.project_id);
        let e = choose|e: int| 0 <= e < s.entries.len() && (#[trigger] s.entries[e]).id == o.entry_id
            && s.entries[e].project_id == o.project_id;
        assert(t.entries[e] == s.entries[e]);
    }
}

/// Creating a project keeps the store consistent.
pub proof fn lemma_create_project_consistent(s: StoreV, name: Seq<char>, envs: Seq<String>, wd: Option<Seq<char>>, id: Seq<char>)
    requires
        s.consistent(),
        s.create_project(name, envs, wd, id) is Ok,
    ensures
        s.create_project(name, envs, wd, id)->Ok_0.consistent(),
{
    let t = s.create_project(name, envs, wd, id)->Ok_0;
    let labels = dedup(env_labels(envs));
    lemma_dedup_nonempty(env_labels(envs));
    assert(labels.contains(labels[0]));
    let n = s.projects.len();
    assert forall|i: int, j: int| 0 <= i < j < t.projects.len() implies (#[trigger] t.projects[i]).id != (#[trigger] t.projects[j]).id by {
        if j < n {
            assert(s.projects[i].id != s.projects[j].id);
        } else {
            assert(t.projects[i] == s.projects[i]);
        }
    }
    assert forall|i: int, j: int| 0 <= i < j < t.projects.len() implies (#[trigger] t.projects[i]).name != (#[trigger] t.projects[j]).name by {
        if j < n {
            assert(s.projects[i].name != s.projects[j].name);
        } else {
            assert(t.projects[i] == s.projects[i]);
        }
    }
    assert forall|i: int| 0 <= i < t.projects.len() implies (#[trigger] t.projects[i]).supported.contains(t.projects[i].base) by {
        if i < n {
            assert(t.projects[i] == s.projects[i]);
        }
    }
    assert forall|k: int| 0 <= k < t.entries.len() implies t.has_project((#[trigger] t.entries[k]).project_id) by {
        assert(s.has_project(s.entries[k].project_id));
        let i = choose|i: int| 0 <= i < s.projects.len() && (#[trigger] s.projects[i]).id == s.entries[k].project_id;
        assert(t.projects[i] == s.projects[i]);
    }
    assert forall|k: int| 0 <= k < t.values.len() implies t.has_entry((#[trigger] t.values[k]).entry_id) by {
        assert(s.has_entry(s.values[k].entry_id));
    }
    assert forall|k: int| 0 <= k < t.overrides.len() implies t.override_fits(#[trigger] t.overrides[k]) by {
        let o = s.overrides[k];
        assert(s.override_fits(o));
        let i = choose|i: int| 0 <= i < s.projects.len() && (#[trigger] s.projects[i]).id == o.project_id
            && s.projects[i].supported.contains(o.environment) && o.environment != s.projects[i].base;
        assert(t.projects[i] == s.projects[i]);
        let e = choose|e: int| 0 <= e < s.entries.len() && (#[trigger] s.entries[e]).id == o.entry_id
            && s.entries[e].project_id == o.project_id;
        assert(t.entries[e] == s.entries[e]);
    }
}

/// Deleting an entry keeps the store consistent.
pub proof fn lemma_delete_entry_consistent(s: StoreV, pid: Seq<char>, eid: Seq<char>)
    requires
        s.consistent(),
        s.delete_entry(pid, eid) is Ok,
    ensures
        s.delete_entry(pid, eid)->Ok_0.consistent(),
{
    let t = s.delete_entry(pid, eid)->Ok_0;
    let ke = entry_not_in_project(eid, pid);
    lemma_filter_from(s.entries, ke);
    lemma_filter_distinct(s.entries, ke, by_entry_key());
    lemma_filter_distinct(s.values, value_not_of_entry(eid), by_value_key());
    lemma_filter_distinct(s.overrides, override_not_of_entry(eid), by_override_key());
    lemma_filter_distinct(s.entries, ke, |e: EntryV| e.id);
    assert forall|i: int, j: int| 0 <= i < j < t.entries.len() implies (#[trigger] t.entries[i]).id != (#[trigger] t.entries[j]).id by {
        assert((|e: EntryV| e.id)(t.entries[i]) != (|e: EntryV| e.id)(t.entries[j]));
    }
    lemma_filter_from(s.values, value_not_of_entry(eid));
    lemma_filter_from(s.overrides, override_not_of_entry(eid));
    assert forall|k: int| 0 <= k < t.entries.len() implies t.has_project((#[trigger] t.entries[k]).project_id) by {
        let j = choose|j: int| 0 <= j < s.entries.len() && #[trigger] s.entries[j] == t.entries[k];
        assert(s.has_project(s.entries[j].project_id));
    }
    assert forall|k: int| 0 <= k < t.values.len() implies t.has_entry((#[trigger] t.values[k]).entry_id) by {
        let j = choose|j: int| 0 <= j < s.values.len() && #[trigger] s.values[j] == t.values[k];
        s.values.lemma_filter_pred(value_not_of_entry(eid), k);
        assert(s.has_entry(s.values[j].entry_id));
        let m = choose|m: int| 0 <= m < s.entries.len() && (#[trigger] s.entries[m]).id == s.values[j].entry_id;
        lemma_filter_to(s.entries, ke, m);
        let q = choose|q: int| 0 <= q < t.entries.len() && #[trigger] s.entries.filter(ke)[q] == s.entries[m];
        assert(t.entries[q].id == t.values[k].entry_id);
    }
    assert forall|k: int| 0 <= k < t.overrides.len() implies t.override_fits(#[trigger] t.overrides[k]) by {
        let j = choose|j: int| 0 <= j < s.overrides.len() && #[trigger] s.overrides[j] == t.overrides[k];
        s.overrides.lemma_filter_pred(override_not_of_entry(eid), k);
        let o = s.overrides[j];
        assert(s.override_fits(o));
        let m = choose|m: int| 0 <= m < s.entries.len() && (#[trigger] s.entries[m]).id == o.entry_id
            && s.entries[m].project_id == o.project_id;
        lemma_filter_to(s.entries, ke, m);
        let q = choose|q: int| 0 <= q < t.entries.len() && #[trigger] s.entries.filter(ke)[q] == s.entries[m];
        assert(t.entries[q].id == o.entry_id && t.entries[q].project_id == o.project_id);
    }
}

/// An entry of the deleted project has its id among the deleted ones.
proof fn lemma_gone_contains(s: StoreV, pid: Seq<char>, m: int)
    requires
        0 <= m < s.entries.len(),
        s.entries[m].project_id == pid,
    ensures
        s.entry_ids_of(pid).contains(s.entries[m].id),
{
    lemma_filter_to(s.entries, entry_of_project(pid), m);
    let q = choose|q: int| 0 <= q < s.entries.filter(entry_of_project(pid)).len()
        && #[trigger] s.entries.filter(entry_of_project(pid))[q] == s.entries[m];
    assert(s.entry_ids_of(pid)[q] == s.entries[m].id);
}

/// Deleting a project keeps the store consistent.
pub proof fn lemma_delete_project_consistent(s: StoreV, pid: Seq<char>)
    requires
        s.consistent(),
        s.delete_project(pid) is Ok,
    ensures
        s.delete_project(pid)->Ok_0.consistent(),
{
    let t = s.delete_project(pid)->Ok_0;
    let gone = s.entry_ids_of(pid);
    let kp = project_not_id(pid);
    let ke = entry_not_of_project(pid);
    lemma_filter_distinct(s.projects, kp, |p: ProjectV| p.id);
    lemma_filter_distinct(s.projects, kp, |p: ProjectV| p.name);
    lemma_filter_from(s.projects, kp);
    lemma_filter_from(s.entries, ke);
    lemma_filter_distinct(s.entries, ke, |e: EntryV| e.id);
    assert forall|i: int, j: int| 0 <= i < j < t.entries.len() implies (#[trigger] t.entries[i]).id != (#[trigger] t.entries[j]).id by {
        assert((|e: EntryV| e.id)(t.entries[i]) != (|e: EntryV| e.id)(t.entries[j]));
    }
    lemma_filter_distinct(s.entries, ke, by_entry_key());
    lemma_filter_distinct(s.values, value_not_in(gone), by_value_key());
    lemma_filter_distinct(s.overrides, override_not_in(pid, gone), by_override_key());
    lemma_filter_from(s.values, value_not_in(gone));
    lemma_filter_from(s.overrides, override_not_in(pid, gone));
    assert forall|i: int, j: int| 0 <= i < j < t.projects.len() implies (#[trigger] t.projects[i]).id != (#[trigger] t.projects[j]).id by {
        assert((|p: ProjectV| p.id)(t.projects[i]) != (|p: ProjectV| p.id)(t.projects[j]));
    }
    assert forall|i: int, j: int| 0 <= i < j < t.projects.len() implies (#[trigger] t.projects[i]).name != (#[trigger] t.projects[j]).name by {
        assert((|p: ProjectV| p.name)(t.projects[i]) != (|p: ProjectV| p.name)(t.projects[j]));
    }
    assert forall|i: int| 0 <= i < t.projects.len() implies (#[trigger] t.projects[i]).supported.contains(t.projects[i].base) by {
        let j = choose|j: int| 0 <= j < s.projects.len() && #[trigger] s.projects[j] == t.projects[i];
    }
    assert forall|k: int| 0 <= k < t.entries.len() implies t.has_project((#[trigger] t.entries[k]).project_id) by {
        let j = choose|j: int| 0 <= j < s.entries.len() && #[trigger] s.entries[j] == t.entries[k];
        s.entries.lemma_filter_pred(ke, k);
        assert(s.has_project(s.entries[j].project_id));
        let i = choose|i: int| 0 <= i < s.projects.len() && (#[trigger] s.projects[i]).id == s.entries[j].project_id;
        lemma_filter_to(s.projects, kp, i);
        let q = choose|q: int| 0 <= q < t.projects.len() && #[trigger] s.projects.filter(kp)[q] == s.projects[i];
        assert(t.projects[q].id == t.entries[k].project_id);
    }
    assert forall|k: int| 0 <= k < t.values.len() implies t.has_entry((#[trigger] t.values[k]).entry_id) by {
        let j = choose|j: int| 0 <= j < s.values.len() && #[trigger] s.values[j] == t.values[k];
        s.values.lemma_filter_pred(value_not_in(gone), k);
        assert(s.has_entry(s.values[j].entry_id));
        let m = choose|m: int| 0 <= m < s.entries.len() && (#[trigger] s.entries[m]).id == s.values[j].entry_id;
        if s.entries[m].project_id == pid {
            lemma_gone_contains(s, pid, m);
        }
        lemma_filter_to(s.entries, ke, m);
        let q = choose|q: int| 0 <= q < t.entries.len() && #[trigger] s.entries.filter(ke)[q] == s.entries[m];
        assert(t.entries[q].id == t.values[k].entry_id);
    }
    assert forall|k: int| 0 <= k < t.overrides.len() implies t.override_fits(#[trigger] t.overrides[k]) by {
        let j = choose|j: int| 0 <= j < s.overrides.len() && #[trigger] s.overrides[j] == t.overrides[k];
        s.overrides.lemma_filter_pred(override_not_in(pid, gone), k);
        let o = s.overrides[j];
        assert(s.override_fits(o));
        let i = choose|i: int| 0 <= i < s.projects.len() && (#[trigger] s.projects[i]).id == o.project_id
            && s.projects[i].supported.contains(o.environment) && o.environment != s.projects[i].base;
        lemma_filter_to(s.projects, kp, i);
        let qi = choose|q: int| 0 <= q < t.projects.len() && #[trigger] s.projects.filter(kp)[q] == s.projects[i];
        assert(t.projects[qi] == s.projects[i]);
        let m = choose|m: int| 0 <= m < s.entries.len() && (#[trigger] s.entries[m]).id == o.entry_id
            && s.entries[m].project_id == o.project_id;
        lemma_filter_to(s.entries, ke, m);
        let qm = choose|q: int| 0 <= q < t.entries.len() && #[trigger] s.entries.filter(ke)[q] == s.entries[m];
        assert(t.entries[qm] == s.entries[m]);
    }
}

/// Replacing an entry's values with rows for distinct environments keeps
/// each environment's value unique within its entry.
proof fn lemma_replaced_values_distinct(vs: Seq<ValueV>, eid: Seq<char>, pairs: Seq<(Seq<char>, Seq<char>)>, texts: Seq<Seq<char>>)
    requires
        keys_distinct(vs, by_value_key()),
        keys_increasing(pairs),
    ensures
        keys_distinct(vs.filter(value_not_of_entry(eid)) + value_rows(eid, pairs, texts), by_value_key()),
{
    let kept = vs.filter(value_not_of_entry(eid));
    let rows = value_rows(eid, pairs, texts);
    lemma_filter_distinct(vs, value_not_of_entry(eid), by_value_key());
    assert forall|i: int, j: int| 0 <= i < j < rows.len() implies by_value_key()(#[trigger] rows[i]) != by_value_key()(#[trigger] rows[j]) by {
        assert(lex_lt(pairs[i].0, pairs[j].0));
        lemma_lex_irreflexive(pairs[i].0);
    }
    assert forall|i: int, j: int| 0 <= i < kept.len() && 0 <= j < rows.len() implies by_value_key()(#[trigger] kept[i]) != by_value_key()(#[trigger] rows[j]) by {
        vs.lemma_filter_pred(value_not_of_entry(eid), i);
    }
    lemma_concat_distinct(kept, rows, by_value_key());
}

/// Replacing an entry's values with new rows of that entry keeps every
/// value's entry, when the entry is kept at position `e`.
proof fn lemma_replaced_values_owned(s: StoreV, t: StoreV, eid: Seq<char>, pairs: Seq<(Seq<char>, Seq<char>)>, texts: Seq<Seq<char>>, e: int)
    requires
        s.consistent(),
        t.values == s.values.filter(value_not_of_entry(eid)) + value_rows(eid, pairs, texts),
        0 <= e < t.entries.len(),
        t.entries[e].id == eid,
        t.entries.len() >= s.entries.len(),
        forall|m: int| 0 <= m < s.entries.len() ==> (#[trigger] t.entries[m]).id == s.entries[m].id,
    ensures
        forall|k: int| 0 <= k < t.values.len() ==> t.has_entry((#[trigger] t.values[k]).entry_id),
{
    let kept = s.values.filter(value_not_of_entry(eid));
    lemma_filter_from(s.values, value_not_of_entry(eid));
    assert forall|k: int| 0 <= k < t.values.len() implies t.has_entry((#[trigger] t.values[k]).entry_id) by {
        if k < kept.len() {
            let j = choose|j: int| 0 <= j < s.values.len() && #[trigger] s.values[j] == kept[k];
            assert(t.values[k] == kept[k]);
            assert(s.has_entry(s.values[j].entry_id));
            let m = choose|m: int| 0 <= m < s.entries.len() && (#[trigger] s.entries[m]).id == s.values[j].entry_id;
            assert(t.entries[m].id == s.entries[m].id);
        } else {
            assert(t.values[k] == value_rows(eid, pairs, texts)[k - kept.len()]);
            assert(t.entries[e].id == eid);
        }
    }
}

/// Creating an entry keeps the store consistent.
pub proof fn lemma_create_entry_consistent(
    s: StoreV,
    pid: Seq<char>,
    name: Seq<char>,
    category: Option<Seq<char>>,
    description: Option<Seq<char>>,
    values: Seq<EntryValueInput>,
    key: Seq<u8>,
    id: Seq<char>,
    pairs: Seq<(Seq<char>, Seq<char>)>,
    texts: Seq<Seq<char>>,
)
    requires
        s.consistent(),
        s.create_entry(pid, name, category, description, values, key, id, pairs, texts) is Ok,
        keys_increasing(pairs),
    ensures
        s.create_entry(pid, name, category, description, values, key, id, pairs, texts)->Ok_0.consistent(),
{
    let t = s.create_entry(pid, name, category, description, values, key, id, pairs, texts)->Ok_0;
    let n = s.entries.len();
    lemma_first_index(s.projects, project_has_id(pid));
    assert forall|k: int| 0 <= k < t.entries.len() implies t.has_project((#[trigger] t.entries[k]).project_id) by {
        if k < n {
            assert(t.entries[k] == s.entries[k]);
            assert(s.has_project(s.entries[k].project_id));
        } else {
            assert(t.projects[s.project_index(pid)].id == pid);
        }
    }
    assert forall|i: int, j: int| 0 <= i < j < t.entries.len() implies (#[trigger] t.entries[i]).id != (#[trigger] t.entries[j]).id by {
        if j < n {
            assert(s.entries[i].id != s.entries[j].id);
        } else {
            assert(t.entries[i] == s.entries[i]);
        }
    }
    lemma_replaced_values_owned(s, t, id, pairs, texts, n as int);
    lemma_replaced_values_distinct(s.values, id, pairs, texts);
    let ne = t.entries.last();
    assert(t.entries == s.entries.push(ne));
    assert forall|i: int| 0 <= i < s.entries.len() implies by_entry_key()(#[trigger] s.entries[i]) != by_entry_key()(ne) by {
        if s.entries[i].project_id == pid && s.entries[i].name == ne.name {
            assert(s.entry_name_taken(pid, ne.name, None));
        }
    }
    lemma_push_distinct(s.entries, ne, by_entry_key());
    assert forall|k: int| 0 <= k < t.overrides.len() implies t.override_fits(#[trigger] t.overrides[k]) by {
        let o = s.overrides[k];
        assert(s.override_fits(o));
        let m = choose|m: int| 0 <= m < s.entries.len() && (#[trigger] s.entries[m]).id == o.entry_id
            && s.entries[m].project_id == o.project_id;
        assert(t.entries[m] == s.entries[m]);
    }
}

/// Updating an entry keeps the store consistent.
pub proof fn lemma_update_entry_consistent(
    s: StoreV,
    pid: Seq<char>,
    eid: Seq<char>,
    name: Seq<char>,
    category: Option<Seq<char>>,
    description: Option<Seq<char>>,
    values: Seq<EntryValueInput>,
    key: Seq<u8>,
    pairs: Seq<(Seq<char>, Seq<char>)>,
    texts: Seq<Seq<char>>,
)
    requires
        s.consistent(),
        s.update_entry(pid, eid, name, category, description, values, key, pairs, texts) is Ok,
        keys_increasing(pairs),
    ensures
        s.update_entry(pid, eid, name, category, description, values, key, pairs, texts)->Ok_0.consistent(),
{
    let t = s.update_entry(pid, eid, name, category, description, values, key, pairs, texts)->Ok_0;
    let j = first_index(s.entries, entry_has_id(eid));
    lemma_first_index(s.entries, entry_has_id(eid));
    assert forall|k: int| 0 <= k < t.entries.len() implies t.has_project((#[trigger] t.entries[k]).project_id) by {
        assert(s.has_project(s.entries[k].project_id));
    }
    assert forall|a: int, b: int| 0 <= a < b < t.entries.len() implies (#[trigger] t.entries[a]).id != (#[trigger] t.entries[b]).id by {
        assert(s.entries[a].id != s.entries[b].id);
    }
    lemma_replaced_values_owned(s, t, eid, pairs, texts, j);
    lemma_replaced_values_distinct(s.values, eid, pairs, texts);
    let nm = crate::normalize::entry_name_of(name);
    assert forall|a: int, b: int| 0 <= a < b < t.entries.len() implies by_entry_key()(#[trigger] t.entries[a]) != by_entry_key()(#[trigger] t.entries[b]) by {
        assert(by_entry_key()(s.entries[a]) != by_entry_key()(s.entries[b]));
        assert(s.entries[a].id != s.entries[b].id);
        if s.entries[a].id == eid {
            if s.entries[b].project_id == pid && s.entries[b].name == nm {
                assert(s.entry_name_taken(pid, nm, Some(eid)));
            }
        }
        if s.entries[b].id == eid {
            if s.entries[a].project_id == pid && s.entries[a].name == nm {
                assert(s.entry_name_taken(pid, nm, Some(eid)));
            }
        }
    }
    assert forall|k: int| 0 <= k < t.overrides.len() implies t.override_fits(#[trigger] t.overrides[k]) by {
        let o = s.overrides[k];
        assert(s.override_fits(o));
        let m = choose|m: int| 0 <= m < s.entries.len() && (#[trigger] s.entries[m]).id == o.entry_id
            && s.entries[m].project_id == o.project_id;
        assert(t.entries[m].id == s.entries[m].id && t.entries[m].project_id == s.entries[m].project_id);
    }
}

/// Setting one value of an existing entry keeps the store consistent.
proof fn lemma_with_value_consistent(s: StoreV, k: int, env: Seq<char>, text: Seq<char>)
    requires
        s.consistent(),
        0 <= k < s.entries.len(),
    ensures
        s.with_value(s.entries[k].id, env, text).consistent(),
        s.with_value(s.entries[k].id, env, text).projects == s.projects,
        s.with_value(s.entries[k].id, env, text).entries == s.entries,
        s.with_value(s.entries[k].id, env, text).overrides == s.overrides,
{
    let t = s.with_value(s.entries[k].id, env, text);
    let eid = s.entries[k].id;
    let hit = crate::preview::value_is(eid, env);
    lemma_first_index(s.values, hit);
    if first_index(s.values, hit) >= 0 {
        let f = |v: ValueV| if v.entry_id == eid && v.environment == env { ValueV { encrypted: text, ..v } } else { v };
        assert(t.values == s.values.map_values(f));
        assert forall|x: ValueV| #[trigger] by_value_key()(f(x)) == by_value_key()(x) by {}
        lemma_map_distinct(s.values, f, by_value_key());
    } else {
        let nv = ValueV { entry_id: eid, environment: env, encrypted: text };
        assert(t.values == s.values.push(nv));
        assert forall|i: int| 0 <= i < s.values.len() implies by_value_key()(#[trigger] s.values[i]) != by_value_key()(nv) by {
            assert(!hit(s.values[i]));
        }
        lemma_push_distinct(s.values, nv, by_value_key());
    }
    assert forall|v: int| 0 <= v < t.values.len() implies t.has_entry((#[trigger] t.values[v]).entry_id) by {
        if v < s.values.len() {
            assert(t.values[v].entry_id == s.values[v].entry_id);
            assert(s.has_entry(s.values[v].entry_id));
        } else {
            assert(t.values[v].entry_id == s.entries[k].id);
        }
    }
}

/// Each step of an import keeps the store consistent, its projects and
/// overrides unchanged, and its entries, to which it may add.
pub proof fn lemma_import_fold_consistent(
    s0: StoreV,
    pid: Seq<char>,
    env: Seq<char>,
    items: Seq<ImportEntryItem>,
    key: Seq<u8>,
    ids: Seq<Seq<char>>,
    texts: Seq<Seq<char>>,
)
    requires
        s0.consistent(),
        s0.has_project(pid),
    ensures
        import_fold(s0, pid, env, items, key, ids, texts) matches Ok((s, c, u)) ==> {
            &&& s.consistent()
            &&& s.projects == s0.projects
            &&& s.overrides == s0.overrides
        },
    decreases items.len(),
{
    if items.len() > 0 {
        lemma_import_fold_consistent(s0, pid, env, items.drop_last(), key, ids, texts);
        match import_fold(s0, pid, env, items.drop_last(), key, ids, texts) {
            Err(_) => {},
            Ok((s, c, u)) => {
                let name = crate::normalize::entry_name_of(items.last().name@);
                if name.len() > 0 {
                    let k = first_index(s.entries, entry_named(pid, name));
                    let text = texts[(c + u) as int];
                    if k >= 0 {
                        lemma_first_index(s.entries, entry_named(pid, name));
                        lemma_with_value_consistent(s, k, env, text);
                    } else {
                        let id = ids[c as int];
                        let t = StoreV {
                            entries: s.entries.push(EntryV { id, project_id: pid, name, category: None, description: None }),
                            values: s.values.push(ValueV { entry_id: id, environment: env, encrypted: text }),
                            ..s
                        };
                        let n = s.entries.len();
                        let ne = EntryV { id, project_id: pid, name, category: None, description: None };
                        let nv = ValueV { entry_id: id, environment: env, encrypted: text };
                        lemma_first_index(s.entries, entry_named(pid, name));
                        assert forall|i: int| 0 <= i < s.entries.len() implies by_entry_key()(#[trigger] s.entries[i]) != by_entry_key()(ne) by {
                            assert(!entry_named(pid, name)(s.entries[i]));
                        }
                        lemma_push_distinct(s.entries, ne, by_entry_key());
                        if !(exists|j: int| 0 <= j < s.entries.len() && #[trigger] s.entries[j].id == id) {
                            assert forall|i: int| 0 <= i < s.values.len() implies by_value_key()(#[trigger] s.values[i]) != by_value_key()(nv) by {
                                assert(s.has_entry(s.values[i].entry_id));
                            }
                            lemma_push_distinct(s.values, nv, by_value_key());
                            assert forall|a: int, b: int| 0 <= a < b < t.entries.len() implies (#[trigger] t.entries[a]).id != (#[trigger] t.entries[b]).id by {
                                if b < n {
                                    assert(s.entries[a].id != s.entries[b].id);
                                } else {
                                    assert(t.entries[a] == s.entries[a]);
                                    assert(s.entries[a].id != id);
                                }
                            }
                        }
                        assert forall|m: int| 0 <= m < t.entries.len() implies t.has_project((#[trigger] t.entries[m]).project_id) by {
                            if m < n {
                                assert(t.entries[m] == s.entries[m]);
                                assert(s.has_project(s.entries[m].project_id));
                            }
                        }
                        assert forall|v: int| 0 <= v < t.values.len() implies t.has_entry((#[trigger] t.values[v]).entry_id) by {
                            if v < s.values.len() {
                                assert(t.values[v] == s.values[v]);
                                assert(s.has_entry(s.values[v].entry_id));
                                let m = choose|m: int| 0 <= m < s.entries.len() && (#[trigger] s.entries[m]).id == s.values[v].entry_id;
                                assert(t.entries[m] == s.entries[m]);
                            } else {
                                assert(t.entries[n as int].id == id);
                            }
                        }
                        assert forall|q: int| 0 <= q < t.overrides.len() implies t.override_fits(#[trigger] t.overrides[q]) by {
                            let o = s.overrides[q];
                            assert(s.override_fits(o));
                            let m = choose|m: int| 0 <= m < s.entries.len() && (#[trigger] s.entries[m]).id == o.entry_id
                                && s.entries[m].project_id == o.project_id;
                            assert(t.entries[m] == s.entries[m]);
                        }
                    }
                }
            },
        }
    }
}

/// Importing entries keeps the store consistent.
pub proof fn lemma_import_entries_consistent(
    s: StoreV,
    pid: Seq<char>,
    environment: Seq<char>,
    items: Seq<ImportEntryItem>,
    key: Seq<u8>,
    ids: Seq<Seq<char>>,
    texts: Seq<Seq<char>>,
)
    requires
        s.consistent(),
        s.import_entries(pid, environment, items, key, ids, texts) is Ok,
    ensures
        s.import_entries(pid, environment, items, key, ids, texts)->Ok_0.0.consistent(),
{
    lemma_first_index(s.projects, project_has_id(pid));
    assert(s.projects[s.project_index(pid)].id == pid);
    lemma_import_fold_consistent(s, pid, env_label_of(environment), items, key, ids, texts);
}

} // verus!
