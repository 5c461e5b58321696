//! Properties that hold across the library's operations.

use vstd::prelude::*;
use crate::normalize::{entry_name_char, entry_name_of, env_char, env_keep, env_label_of, keep_env};
use crate::text::{ascii_lower, is_ascii_digit, is_ascii_lower, is_ascii_upper, strip, strip_back, strip_front, stripped, trim};
use crate::seqs::{first_index, lemma_first_index};
use crate::sort::{lemma_stable_order_shape, permutes, stable_order, stable_order_upto};
use crate::crypto::lemma_stored_form_decrypts;
use crate::entries::{normalized_values, sealed_pairs, value_rows};
use crate::model::EntryValueInput;
use crate::normalize::{bare_value_char, escape_char, escape_chars, fold_values, serialized_value};
use crate::order::{lemma_lex_asymmetric, lemma_lex_irreflexive, lex_lt};
use crate::preview::{decrypted_values, value_is};
use crate::crypto::{decrypted_text, is_stored_form};
use crate::consistent::lemma_import_fold_consistent;
use crate::import::{accepted_values, entry_named, import_fold, lemma_fold_counts};
use crate::model::ImportEntryItem;
use crate::text::lower_chars;
use crate::store::{
    entry_in_project, value_not_of_entry, value_of_entry, value_keys, EntryV, ValueV, override_is, override_not, override_not_of_project, override_of_project, project_has_id, OverrideV, ProjectV,
    StoreV,
};

verus! {

// ---------------------------------------------------------------- stripping

proof fn lemma_strip_front_bounds(s: Seq<char>, u: bool)
    ensures
        strip_front(s, u).len() <= s.len(),
        strip_front(s, u) == s.skip(s.len() - strip_front(s, u).len()),
        strip_front(s, u).len() > 0 ==> !stripped(strip_front(s, u)[0], u),
    decreases s.len(),
{
    if s.len() > 0 && stripped(s[0], u) {
        lemma_strip_front_bounds(s.drop_first(), u);
        assert(s.drop_first().skip(s.drop_first().len() - strip_front(s, u).len()) =~= s.skip(s.len() - strip_front(s, u).len()));
    } else {
        assert(s.skip(0) =~= s);
    }
}

proof fn lemma_strip_back_bounds(s: Seq<char>, u: bool)
    ensures
        strip_back(s, u).len() <= s.len(),
        strip_back(s, u) == s.take(strip_back(s, u).len() as int),
        strip_back(s, u).len() > 0 ==> !stripped(strip_back(s, u).last(), u),
    decreases s.len(),
{
    if s.len() > 0 && stripped(s.last(), u) {
        lemma_strip_back_bounds(s.drop_last(), u);
        assert(s.drop_last().take(strip_back(s, u).len() as int) =~= s.take(strip_back(s, u).len() as int));
    } else {
        assert(s.take(s.len() as int) =~= s);
    }
}

/// A strip keeps a contiguous run of the characters, with no stripped
/// character at either end.
proof fn lemma_strip_shape(s: Seq<char>, u: bool)
    ensures
        strip(s, u).len() > 0 ==> !stripped(strip(s, u)[0], u) && !stripped(strip(s, u).last(), u),
        forall|i: int| 0 <= i < strip(s, u).len() ==> exists|j: int| 0 <= j < s.len() && #[trigger] strip(s, u)[i] == s[j],
{
    let f = strip_front(s, u);
    lemma_strip_front_bounds(s, u);
    lemma_strip_back_bounds(f, u);
    let b = strip_back(f, u);
    if b.len() > 0 {
        assert(b[0] == f[0]);
    }
    let off = s.len() - f.len();
    assert forall|i: int| 0 <= i < b.len() implies exists|j: int| 0 <= j < s.len() && #[trigger] b[i] == s[j] by {
        assert(b[i] == f[i]);
        assert(f[i] == s[off + i]);
    }
}

/// A sequence with no stripped character at either end is its own strip.
proof fn lemma_strip_fixed(s: Seq<char>, u: bool)
    requires
        s.len() > 0 ==> !stripped(s[0], u) && !stripped(s.last(), u),
    ensures
        strip(s, u) == s,
{
    assert(strip_front(s, u) == s);
}

/// Trimming twice trims once: a stored project name is its own normal form.
pub proof fn lemma_trim_idempotent(s: Seq<char>)
    ensures
        trim(trim(s)) == trim(s),
{
    lemma_strip_shape(s, false);
    lemma_strip_fixed(trim(s), false);
}

// ---------------------------------------------------------------- environment labels

proof fn lemma_ascii_lower_not_upper(c: char)
    ensures
        !is_ascii_upper(ascii_lower(c)),
        !is_ascii_upper(c) ==> ascii_lower(c) == c,
{
    if is_ascii_upper(c) {
        let u = c as u32;
        assert(0x41 <= u <= 0x5a);
        assert((((u + 32) as u32) as char) as u32 == u + 32);
    }
}

/// Every character of `keep_env(m)` is kept, and occurs in `m`.
proof fn lemma_keep_env_chars(m: Seq<char>)
    ensures
        forall|i: int| 0 <= i < keep_env(m).len() ==> env_keep(#[trigger] keep_env(m)[i]),
        forall|i: int| 0 <= i < keep_env(m).len() ==> exists|j: int| 0 <= j < m.len() && #[trigger] keep_env(m)[i] == m[j],
    decreases m.len(),
{
    if m.len() > 0 {
        let p = m.drop_last();
        lemma_keep_env_chars(p);
        assert forall|i: int| 0 <= i < keep_env(m).len() implies exists|j: int| 0 <= j < m.len() && #[trigger] keep_env(m)[i] == m[j] by {
            if i < keep_env(p).len() {
                let j = choose|j: int| 0 <= j < p.len() && keep_env(p)[i] == p[j];
                assert(m[j] == p[j]);
            } else {
                assert(keep_env(m)[i] == m[m.len() - 1]);
            }
        }
    }
}

/// A sequence of kept characters keeps all of them.
proof fn lemma_keep_env_fixed(m: Seq<char>)
    requires
        forall|i: int| 0 <= i < m.len() ==> env_keep(#[trigger] m[i]),
    ensures
        keep_env(m) == m,
    decreases m.len(),
{
    if m.len() > 0 {
        lemma_keep_env_fixed(m.drop_last());
        assert(m.drop_last().push(m.last()) =~= m);
    }
}

/// The characters of an environment label are ASCII letters, digits, `-`
/// or `_`, with no upper-case letter.
pub proof fn lemma_env_label_chars(s: Seq<char>)
    ensures
        forall|i: int| 0 <= i < env_label_of(s).len() ==> {
            let c = #[trigger] env_label_of(s)[i];
            env_keep(c) && !is_ascii_upper(c)
        },
{
    let m = trim(s).map_values(|c: char| env_char(c));
    lemma_keep_env_chars(m);
    assert forall|i: int| 0 <= i < env_label_of(s).len() implies {
        let c = #[trigger] env_label_of(s)[i];
        env_keep(c) && !is_ascii_upper(c)
    } by {
        let j = choose|j: int| 0 <= j < m.len() && keep_env(m)[i] == m[j];
        lemma_ascii_lower_not_upper(trim(s)[j]);
    }
}

/// Normalising a stored environment label gives it back.
pub proof fn lemma_env_label_idempotent(s: Seq<char>)
    ensures
        env_label_of(env_label_of(s)) == env_label_of(s),
{
    let l = env_label_of(s);
    lemma_env_label_chars(s);
    lemma_strip_fixed(l, false);
    assert(trim(l) == l);
    assert forall|i: int| 0 <= i < l.len() implies #[trigger] env_char(l[i]) == l[i] by {
        lemma_ascii_lower_not_upper(l[i]);
    }
    assert(l.map_values(|c: char| env_char(c)) =~= l);
    lemma_keep_env_fixed(l);
}

// ---------------------------------------------------------------- entry names

/// An entry name is made of upper-case ASCII letters, digits and
/// underscores, and neither begins nor ends with an underscore.
pub proof fn lemma_entry_name_chars(s: Seq<char>)
    ensures
        forall|i: int| 0 <= i < entry_name_of(s).len() ==> {
            let c = #[trigger] entry_name_of(s)[i];
            is_ascii_upper(c) || is_ascii_digit(c) || c == '_'
        },
        entry_name_of(s).len() > 0 ==> entry_name_of(s)[0] != '_' && entry_name_of(s).last() != '_',
{
    let m = trim(s).map_values(|c: char| entry_name_char(c));
    let n = entry_name_of(s);
    lemma_strip_shape(m, true);
    assert forall|i: int| 0 <= i < n.len() implies {
        let c = #[trigger] n[i];
        is_ascii_upper(c) || is_ascii_digit(c) || c == '_'
    } by {
        let j = choose|j: int| 0 <= j < m.len() && n[i] == m[j];
        let c0 = trim(s)[j];
        if is_ascii_lower(c0) {
            let u = c0 as u32;
            assert(0x61 <= u <= 0x7a);
            assert((((u - 32) as u32) as char) as u32 == u - 32);
        }
    }
}

/// Normalising a stored entry name gives it back.
pub proof fn lemma_entry_name_idempotent(s: Seq<char>)
    ensures
        entry_name_of(entry_name_of(s)) == entry_name_of(s),
{
    let n = entry_name_of(s);
    lemma_entry_name_chars(s);
    lemma_strip_fixed(n, false);
    assert(trim(n) == n);
    assert(n.map_values(|c: char| entry_name_char(c)) =~= n);
    lemma_strip_fixed(n, true);
}

// ---------------------------------------------------------------- serialised values

/// What an escaped character stands for.
pub open spec fn unescape_char(c: char) -> char {
    if c == 'n' {
        '\n'
    } else if c == 'r' {
        '\r'
    } else {
        c
    }
}

/// The text a quoted value's inner part stands for: `\` followed by a
/// character is that escape undone, any other character stands for itself.
pub open spec fn unescape(t: Seq<char>) -> Seq<char>
    decreases t.len(),
{
    if t.len() == 0 {
        Seq::empty()
    } else if t[0] == '\\' && t.len() >= 2 {
        seq![unescape_char(t[1])] + unescape(t.skip(2))
    } else {
        seq![t[0]] + unescape(t.skip(1))
    }
}

proof fn lemma_escape_front(s: Seq<char>)
    requires
        s.len() > 0,
    ensures
        escape_chars(s) == escape_char(s[0]) + escape_chars(s.drop_first()),
    decreases s.len(),
{
    if s.len() == 1 {
        assert(s.drop_last() =~= Seq::<char>::empty());
        assert(s.drop_first() =~= Seq::<char>::empty());
        assert(escape_chars(s.drop_first()) == Seq::<char>::empty());
        assert(escape_chars(s) =~= escape_char(s[0]));
    } else {
        let d = s.drop_last();
        lemma_escape_front(d);
        assert(d.drop_first() =~= s.drop_first().drop_last());
        assert(s.drop_first().last() == s.last());
        assert(escape_chars(s) =~= escape_char(s[0]) + escape_chars(s.drop_first()));
    }
}

proof fn lemma_escape_shape(s: Seq<char>)
    ensures
        escape_chars(s).len() >= s.len(),
        forall|i: int| 0 <= i < escape_chars(s).len() ==> #[trigger] escape_chars(s)[i] != '\n' && escape_chars(s)[i] != '\r',
    decreases s.len(),
{
    if s.len() > 0 {
        lemma_escape_shape(s.drop_last());
        let a = escape_chars(s.drop_last());
        let b = escape_char(s.last());
        assert forall|i: int| 0 <= i < escape_chars(s).len() implies #[trigger] escape_chars(s)[i] != '\n' && escape_chars(s)[i] != '\r' by {
            if i < a.len() {
                assert(escape_chars(s)[i] == a[i]);
            } else {
                assert(escape_chars(s)[i] == b[i - a.len()]);
            }
        }
    }
}

proof fn lemma_unescape_escape(s: Seq<char>)
    ensures
        unescape(escape_chars(s)) == s,
    decreases s.len(),
{
    if s.len() == 0 {
    } else {
        lemma_escape_front(s);
        let c = s[0];
        let rest = escape_chars(s.drop_first());
        lemma_unescape_escape(s.drop_first());
        let t = escape_char(c) + rest;
        if c == '\\' || c == '\n' || c == '\r' || c == '"' {
            assert(t[0] == '\\');
            assert(t.skip(2) =~= rest);
            assert(unescape_char(t[1]) == c);
        } else {
            assert(t[0] == c);
            assert(t.skip(1) =~= rest);
        }
        assert(seq![c] + s.drop_first() =~= s);
    }
}

/// A serialised value has no line break; it is the value itself exactly
/// when the value is non-empty and all its characters are bare ones; else
/// it is quoted, and undoing the escapes of what is inside the quotes gives
/// the value back.
pub proof fn lemma_serialized_value_reads_back(s: Seq<char>)
    ensures
        forall|i: int| 0 <= i < serialized_value(s).len() ==> #[trigger] serialized_value(s)[i] != '\n' && serialized_value(s)[i] != '\r',
        (serialized_value(s) == s) <==> (s.len() > 0 && forall|i: int| 0 <= i < s.len() ==> bare_value_char(#[trigger] s[i])),
        serialized_value(s) != s ==> {
            let t = serialized_value(s);
            &&& t.len() >= 2
            &&& t[0] == '"'
            &&& t.last() == '"'
            &&& unescape(t.subrange(1, t.len() - 1)) == s
        },
{
    lemma_escape_shape(s);
    lemma_unescape_escape(s);
    let t = serialized_value(s);
    if s.len() == 0 {
        assert(t.subrange(1, 1) =~= Seq::<char>::empty());
    } else if forall|i: int| 0 <= i < s.len() ==> bare_value_char(#[trigger] s[i]) {
        assert forall|i: int| 0 <= i < t.len() implies #[trigger] t[i] != '\n' && t[i] != '\r' by {
            assert(bare_value_char(s[i]));
        }
    } else {
        let e = escape_chars(s);
        assert(t.subrange(1, t.len() - 1) =~= e);
        assert(t.len() > s.len());
        assert forall|i: int| 0 <= i < t.len() implies #[trigger] t[i] != '\n' && t[i] != '\r' by {
            if 0 < i < t.len() - 1 {
                assert(t[i] == e[i - 1]);
            }
        }
    }
}

// ---------------------------------------------------------------- searching

proof fn lemma_first_index_none<T>(s: Seq<T>, p: spec_fn(T) -> bool)
    requires
        forall|j: int| 0 <= j < s.len() ==> !p(#[trigger] s[j]),
    ensures
        first_index(s, p) < 0,
{
    lemma_first_index(s, p);
}

proof fn lemma_first_index_some<T>(s: Seq<T>, p: spec_fn(T) -> bool, j: int)
    requires
        0 <= j < s.len(),
        p(s[j]),
    ensures
        0 <= first_index(s, p) <= j,
{
    lemma_first_index(s, p);
}

/// Searching a mapped sequence with a predicate that the map does not
/// change finds the same position.
proof fn lemma_first_index_map<T>(s: Seq<T>, f: spec_fn(T) -> T, p: spec_fn(T) -> bool)
    requires
        forall|x: T| #[trigger] p(f(x)) == p(x),
    ensures
        first_index(s.map_values(f), p) == first_index(s, p),
    decreases s.len(),
{
    if s.len() > 0 {
        lemma_first_index_map(s.drop_last(), f, p);
        assert(s.map_values(f).drop_last() =~= s.drop_last().map_values(f));
        assert(p(s.map_values(f).last()) == p(s.last()));
    }
}

/// An element pushed where none matched before is the first match.
proof fn lemma_first_index_push<T>(s: Seq<T>, x: T, p: spec_fn(T) -> bool)
    requires
        forall|j: int| 0 <= j < s.len() ==> !p(#[trigger] s[j]),
        p(x),
    ensures
        first_index(s.push(x), p) == s.len(),
{
    lemma_first_index_none(s, p);
    assert(s.push(x).drop_last() =~= s);
}

/// No element of a filtered sequence fails the filter.
proof fn lemma_filter_excludes<T>(s: Seq<T>, keep: spec_fn(T) -> bool, p: spec_fn(T) -> bool)
    requires
        forall|x: T| #[trigger] p(x) ==> !keep(x),
    ensures
        first_index(s.filter(keep), p) < 0,
{
    assert forall|j: int| 0 <= j < s.filter(keep).len() implies !p(#[trigger] s.filter(keep)[j]) by {
        s.lemma_filter_pred(keep, j);
    }
    lemma_first_index_none(s.filter(keep), p);
}

// ---------------------------------------------------------------- what a change leaves

/// Selecting a project makes it the active one.
pub proof fn lemma_select_makes_active(s: StoreV, id: Seq<char>)
    requires
        s.select_project(id) is Ok,
    ensures
        s.select_project(id)->Ok_0.resolved_active() == Some(id),
        s.select_project(id)->Ok_0.snapshot(false).active == Some(id),
{
}

/// A created project is stored last, with its first environment as base,
/// and becomes the active one.
pub proof fn lemma_create_project_makes_active(s: StoreV, name: Seq<char>, envs: Seq<String>, wd: Option<Seq<char>>, id: Seq<char>)
    requires
        s.create_project(name, envs, wd, id) is Ok,
    ensures
        ({
            let t = s.create_project(name, envs, wd, id)->Ok_0;
            &&& t.project_index(id) == s.projects.len()
            &&& t.projects[t.project_index(id)].base == t.projects[t.project_index(id)].supported[0]
            &&& t.projects[t.project_index(id)].name == trim(name)
            &&& t.resolved_active() == Some(id)
        }),
{
    let t = s.create_project(name, envs, wd, id)->Ok_0;
    assert(t.projects.drop_last() =~= s.projects);
    lemma_first_index_push(s.projects, t.projects.last(), project_has_id(id));
}

/// After the base environment is set, the project has it as base, no
/// override, and the preset `all_<base>`.
pub proof fn lemma_set_base_environment_takes(s: StoreV, pid: Seq<char>, env: Seq<char>)
    requires
        s.set_base_environment(pid, env) is Ok,
    ensures
        ({
            let t = s.set_base_environment(pid, env)->Ok_0;
            let i = t.project_index(pid);
            &&& i >= 0
            &&& t.projects[i].base == env_label_of(env)
            &&& t.preset_label(pid, t.projects[i].base) == "all_"@ + env_label_of(env)
            &&& forall|eid: Seq<char>| #[trigger] t.override_env(pid, eid) is None
        }),
{
    let t = s.set_base_environment(pid, env)->Ok_0;
    let l = env_label_of(env);
    let f = |p: ProjectV| if p.id == pid { ProjectV { base: l, ..p } } else { p };
    assert(t.projects == s.projects.map_values(f));
    lemma_first_index_map(s.projects, f, project_has_id(pid));
    lemma_first_index(s.projects, project_has_id(pid));
    lemma_filter_excludes(s.overrides, override_not_of_project(pid), override_of_project(pid));
    assert forall|eid: Seq<char>| #[trigger] t.override_env(pid, eid) is None by {
        lemma_filter_excludes(s.overrides, override_not_of_project(pid), override_is(pid, eid));
    }
}

/// After the overrides of a project are reset, none remains and the
/// preset is `all_<base>`.
pub proof fn lemma_reset_overrides_clears(s: StoreV, pid: Seq<char>)
    ensures
        forall|eid: Seq<char>| #[trigger] s.reset_overrides(pid).override_env(pid, eid) is None,
        forall|base: Seq<char>| #[trigger] s.reset_overrides(pid).preset_label(pid, base) == "all_"@ + base,
{
    lemma_filter_excludes(s.overrides, override_not_of_project(pid), override_of_project(pid));
    assert forall|eid: Seq<char>| #[trigger] s.reset_overrides(pid).override_env(pid, eid) is None by {
        lemma_filter_excludes(s.overrides, override_not_of_project(pid), override_is(pid, eid));
    }
}

/// After an entry's override is set, the entry takes its value from the
/// chosen environment; after it is cleared, from the base.
pub proof fn lemma_set_entry_override_takes(s: StoreV, pid: Seq<char>, eid: Seq<char>, env: Option<Seq<char>>)
    requires
        s.set_entry_override(pid, eid, env) is Ok,
    ensures
        ({
            let t = s.set_entry_override(pid, eid, env)->Ok_0;
            let i = t.project_index(pid);
            &&& i >= 0
            &&& t.projects == s.projects
            &&& t.source_env(pid, t.projects[i].base, eid) == match env {
                Some(e) => env_label_of(e),
                None => t.projects[i].base,
            }
        }),
{
    let t = s.set_entry_override(pid, eid, env)->Ok_0;
    let i = s.project_index(pid);
    let clear = s.without_override(pid, eid);
    lemma_filter_excludes(s.overrides, override_not(pid, eid), override_is(pid, eid));
    assert(clear.override_env(pid, eid) is None);
    match env {
        None => {},
        Some(e) => {
            let l = env_label_of(e);
            if l != s.projects[i].base {
                let k = first_index(s.overrides, override_is(pid, eid));
                if k >= 0 {
                    let f = |o: OverrideV| if o.project_id == pid && o.entry_id == eid { OverrideV { environment: l, ..o } } else { o };
                    assert(t.overrides == s.overrides.map_values(f));
                    lemma_first_index_map(s.overrides, f, override_is(pid, eid));
                    lemma_first_index(s.overrides, override_is(pid, eid));
                } else {
                    lemma_first_index(s.overrides, override_is(pid, eid));
                    lemma_first_index_push(s.overrides, t.overrides.last(), override_is(pid, eid));
                    assert(t.overrides.drop_last() =~= s.overrides);
                }
            }
        },
    }
}

/// After an entry is deleted, the project has no such entry and no value
/// of it remains.
pub proof fn lemma_delete_entry_removes(s: StoreV, pid: Seq<char>, eid: Seq<char>)
    requires
        s.delete_entry(pid, eid) is Ok,
    ensures
        ({
            let t = s.delete_entry(pid, eid)->Ok_0;
            &&& first_index(t.entries, entry_in_project(eid, pid)) < 0
            &&& forall|k: int| 0 <= k < t.values.len() ==> (#[trigger] t.values[k]).entry_id != eid
            &&& forall|k: int| 0 <= k < t.overrides.len() ==> (#[trigger] t.overrides[k]).entry_id != eid
        }),
{
    let t = s.delete_entry(pid, eid)->Ok_0;
    lemma_filter_excludes(s.entries, crate::store::entry_not_in_project(eid, pid), entry_in_project(eid, pid));
    assert forall|k: int| 0 <= k < t.values.len() implies (#[trigger] t.values[k]).entry_id != eid by {
        s.values.lemma_filter_pred(crate::store::value_not_of_entry(eid), k);
    }
    assert forall|k: int| 0 <= k < t.overrides.len() implies (#[trigger] t.overrides[k]).entry_id != eid by {
        s.overrides.lemma_filter_pred(crate::store::override_not_of_entry(eid), k);
    }
}

/// After a project is deleted it is gone, none of its entries remains, and
/// it is not the active project.
pub proof fn lemma_delete_project_removes(s: StoreV, pid: Seq<char>)
    requires
        s.delete_project(pid) is Ok,
    ensures
        ({
            let t = s.delete_project(pid)->Ok_0;
            &&& t.project_index(pid) < 0
            &&& forall|k: int| 0 <= k < t.entries.len() ==> (#[trigger] t.entries[k]).project_id != pid
            &&& t.resolved_active() != Some(pid)
        }),
{
    let t = s.delete_project(pid)->Ok_0;
    let ps = t.projects;
    assert forall|k: int| 0 <= k < ps.len() implies (#[trigger] ps[k]).id != pid by {
        s.projects.lemma_filter_pred(crate::store::project_not_id(pid), k);
    }
    lemma_first_index_none(ps, project_has_id(pid));
    assert forall|k: int| 0 <= k < t.entries.len() implies (#[trigger] t.entries[k]).project_id != pid by {
        s.entries.lemma_filter_pred(crate::store::entry_not_of_project(pid), k);
    }
    let order = stable_order(StoreV::name_keys(ps));
    lemma_stable_order_shape(StoreV::name_keys(ps), ps.len());
    assert(order == t.project_order());
    if order.len() > 0 {
        assert(0 <= order[0] < ps.len());
    }
    match t.active {
        Some(a) => {
            if t.project_index(a) >= 0 {
                lemma_first_index(ps, project_has_id(a));
            }
        },
        None => {},
    }
}

// ---------------------------------------------------------------- what a write leaves to read

proof fn lemma_filter_keeps_all<T>(s: Seq<T>, p: spec_fn(T) -> bool)
    requires
        forall|j: int| 0 <= j < s.len() ==> p(#[trigger] s[j]),
    ensures
        s.filter(p) == s,
    decreases s.len(),
{
    reveal(Seq::filter);
    if s.len() > 0 {
        lemma_filter_keeps_all(s.drop_last(), p);
        assert(s.drop_last().push(s.last()) =~= s);
    }
}

proof fn lemma_filter_keeps_none<T>(s: Seq<T>, p: spec_fn(T) -> bool)
    requires
        forall|j: int| 0 <= j < s.len() ==> !p(#[trigger] s[j]),
    ensures
        s.filter(p) == Seq::<T>::empty(),
    decreases s.len(),
{
    reveal(Seq::filter);
    if s.len() > 0 {
        lemma_filter_keeps_none(s.drop_last(), p);
    }
}

/// The environments that entry values are kept under are lower-case.
proof fn lemma_fold_keys_lower(values: Seq<EntryValueInput>)
    ensures
        forall|k: Seq<char>| #[trigger] fold_values(values).contains_key(k) ==> lower_chars(k) == k,
    decreases values.len(),
{
    if values.len() > 0 {
        lemma_fold_keys_lower(values.drop_last());
        let l = env_label_of(values.last().environment@);
        lemma_env_label_chars(values.last().environment@);
        assert forall|i: int| 0 <= i < l.len() implies #[trigger] ascii_lower(l[i]) == l[i] by {
            lemma_ascii_lower_not_upper(l[i]);
        }
        assert(lower_chars(l) =~= l);
        let m = fold_values(values.drop_last());
        assert forall|k: Seq<char>| #[trigger] fold_values(values).contains_key(k) implies lower_chars(k) == k by {
            if k != l {
                assert(m.contains_key(k));
            }
        }
    }
}

/// Keys that already increase keep their positions in a stable order.
proof fn lemma_stable_order_sorted(keys: Seq<Seq<char>>, n: nat)
    requires
        n <= keys.len(),
        forall|i: int, j: int| 0 <= i < j < keys.len() ==> lex_lt(#[trigger] keys[i], #[trigger] keys[j]),
    ensures
        stable_order_upto(keys, n) == Seq::new(n, |i: int| i),
    decreases n,
{
    if n > 0 {
        lemma_stable_order_sorted(keys, (n - 1) as nat);
        let o = stable_order_upto(keys, (n - 1) as nat);
        if n > 1 {
            assert(o.last() == n - 2);
            lemma_lex_asymmetric(keys[n - 2], keys[n - 1]);
        }
        assert(stable_order_upto(keys, n) =~= Seq::new(n, |i: int| i));
    }
}

/// The stored rows of sealed values decrypt to the values, in order.
proof fn lemma_value_rows_decrypt(key: Seq<u8>, eid: Seq<char>, pairs: Seq<(Seq<char>, Seq<char>)>, texts: Seq<Seq<char>>, n: int)
    requires
        sealed_pairs(key, pairs, texts),
        0 <= n <= pairs.len(),
    ensures
        decrypted_values(key, value_rows(eid, pairs, texts).take(n)) == Some(pairs.take(n)),
    decreases n,
{
    let vs = value_rows(eid, pairs, texts);
    if n > 0 {
        lemma_value_rows_decrypt(key, eid, pairs, texts, n - 1);
        assert(vs.take(n).drop_last() =~= vs.take(n - 1));
        lemma_stored_form_decrypts(key, texts[n - 1], pairs[n - 1].1);
        assert(pairs.take(n - 1).push((pairs[n - 1].0, pairs[n - 1].1)) =~= pairs.take(n));
    } else {
        assert(vs.take(0) =~= Seq::<ValueV>::empty());
        assert(pairs.take(0) =~= Seq::<(Seq<char>, Seq<char>)>::empty());
    }
}

/// The rows an entry's values were replaced with are all its rows.
proof fn lemma_written_rows(before: Seq<ValueV>, eid: Seq<char>, rows: Seq<ValueV>)
    requires
        forall|j: int| 0 <= j < rows.len() ==> (#[trigger] rows[j]).entry_id == eid,
    ensures
        (before.filter(value_not_of_entry(eid)) + rows).filter(value_of_entry(eid)) == rows,
{
    let kept = before.filter(value_not_of_entry(eid));
    Seq::filter_distributes_over_add(kept, rows, value_of_entry(eid));
    assert forall|j: int| 0 <= j < kept.len() implies !value_of_entry(eid)(#[trigger] kept[j]) by {
        before.lemma_filter_pred(value_not_of_entry(eid), j);
    }
    lemma_filter_keeps_none(kept, value_of_entry(eid));
    lemma_filter_keeps_all(rows, value_of_entry(eid));
    assert(Seq::<ValueV>::empty() + rows =~= rows);
}

/// Rows written in the order of normalised values are already in order.
proof fn lemma_written_rows_sorted(eid: Seq<char>, values: Seq<EntryValueInput>, pairs: Seq<(Seq<char>, Seq<char>)>, texts: Seq<Seq<char>>)
    requires
        normalized_values(pairs, values),
        texts.len() == pairs.len(),
    ensures
        stable_order(value_keys(value_rows(eid, pairs, texts))) == Seq::new(pairs.len(), |i: int| i),
{
    let keys = value_keys(value_rows(eid, pairs, texts));
    lemma_fold_keys_lower(values);
    assert forall|i: int| 0 <= i < keys.len() implies #[trigger] keys[i] == pairs[i].0 by {
        assert(fold_values(values).contains_key(pairs[i].0));
    }
    assert forall|i: int, j: int| 0 <= i < j < keys.len() implies lex_lt(#[trigger] keys[i], #[trigger] keys[j]) by {
        assert(keys[i] == pairs[i].0 && keys[j] == pairs[j].0);
        assert(lex_lt(pairs[i].0, pairs[j].0));
    }
    lemma_stable_order_sorted(keys, keys.len());
}

/// Values written for an entry, replacing its old ones, read back as the
/// written pairs, by environment.
#[verifier::spinoff_prover]
proof fn lemma_written_values_read(
    t: StoreV,
    before: Seq<ValueV>,
    key: Seq<u8>,
    eid: Seq<char>,
    values: Seq<EntryValueInput>,
    pairs: Seq<(Seq<char>, Seq<char>)>,
    texts: Seq<Seq<char>>,
)
    requires
        t.values == before.filter(value_not_of_entry(eid)) + value_rows(eid, pairs, texts),
        sealed_pairs(key, pairs, texts),
        normalized_values(pairs, values),
    ensures
        decrypted_values(key, t.sorted_values(eid)) == Some(pairs),
{
    let rows = value_rows(eid, pairs, texts);
    lemma_written_rows(before, eid, rows);
    lemma_written_rows_sorted(eid, values, pairs, texts);
    assert(t.sorted_values(eid) =~= rows);
    lemma_value_rows_decrypt(key, eid, pairs, texts, pairs.len() as int);
    assert(rows.take(pairs.len() as int) =~= rows);
    assert(pairs.take(pairs.len() as int) =~= pairs);
}

/// A created entry belongs to its project, and its values read back,
/// decrypted under the key they were written with, as the normalised
/// values: one per environment, by environment.
pub proof fn lemma_create_entry_reads_back(
    s: StoreV,
    pid: Seq<char>,
    name: Seq<char>,
    category: Option<Seq<char>>,
    description: Option<Seq<char>>,
    values: Seq<EntryValueInput>,
    key: Seq<u8>,
    id: Seq<char>,
    pairs: Seq<(Seq<char>, Seq<char>)>,
    texts: Seq<Seq<char>>,
)
    requires
        s.create_entry(pid, name, category, description, values, key, id, pairs, texts) is Ok,
        sealed_pairs(key, pairs, texts),
        normalized_values(pairs, values),
    ensures
        ({
            let t = s.create_entry(pid, name, category, description, values, key, id, pairs, texts)->Ok_0;
            &&& first_index(t.entries, entry_in_project(id, pid)) >= 0
            &&& decrypted_values(key, t.sorted_values(id)) == Some(pairs)
        }),
{
    let t = s.create_entry(pid, name, category, description, values, key, id, pairs, texts)->Ok_0;
    lemma_first_index_some(t.entries, entry_in_project(id, pid), t.entries.len() - 1);
    lemma_written_values_read(t, s.values, key, id, values, pairs, texts);
}

/// An updated entry stays in its project, and its values read back,
/// decrypted under the key they were written with, as the normalised
/// values: one per environment, by environment.
pub proof fn lemma_update_entry_reads_back(
    s: StoreV,
    pid: Seq<char>,
    eid: Seq<char>,
    name: Seq<char>,
    category: Option<Seq<char>>,
    description: Option<Seq<char>>,
    values: Seq<EntryValueInput>,
    key: Seq<u8>,
    pairs: Seq<(Seq<char>, Seq<char>)>,
    texts: Seq<Seq<char>>,
)
    requires
        s.update_entry(pid, eid, name, category, description, values, key, pairs, texts) is Ok,
        sealed_pairs(key, pairs, texts),
        normalized_values(pairs, values),
    ensures
        ({
            let t = s.update_entry(pid, eid, name, category, description, values, key, pairs, texts)->Ok_0;
            &&& first_index(t.entries, entry_in_project(eid, pid)) >= 0
            &&& decrypted_values(key, t.sorted_values(eid)) == Some(pairs)
        }),
{
    let t = s.update_entry(pid, eid, name, category, description, values, key, pairs, texts)->Ok_0;
    let j = first_index(s.entries, crate::entries::entry_has_id(eid));
    lemma_first_index(s.entries, crate::entries::entry_has_id(eid));
    assert(t.entries[j].id == eid && t.entries[j].project_id == pid);
    lemma_first_index_some(t.entries, entry_in_project(eid, pid), j);
    lemma_written_values_read(t, s.values, key, eid, values, pairs, texts);
}

// ---------------------------------------------------------------- what a snapshot lists

/// A snapshot lists each project once, by name ignoring ASCII case; an
/// unlocked snapshot lists each project's entries once, by name ignoring
/// ASCII case.
pub proof fn lemma_snapshot_by_name(s: StoreV, locked: bool)
    ensures
        ({
            let snap = s.snapshot(locked);
            &&& snap.projects.len() == s.projects.len()
            &&& forall|i: int, j: int| 0 <= i < j < snap.projects.len() ==>
                !lex_lt(lower_chars((#[trigger] snap.projects[j]).name), lower_chars((#[trigger] snap.projects[i]).name))
            &&& forall|k: int| 0 <= k < s.projects.len() ==> exists|i: int| 0 <= i < snap.projects.len()
                && (#[trigger] snap.projects[i]).id == (#[trigger] s.projects[k]).id
            &&& !locked ==> forall|i: int| 0 <= i < snap.projects.len() ==> {
                let es = (#[trigger] snap.projects[i]).entries;
                forall|a: int, b: int| 0 <= a < b < es.len() ==> !lex_lt(lower_chars((#[trigger] es[b]).name), lower_chars((#[trigger] es[a]).name))
            }
        }),
{
    let snap = s.snapshot(locked);
    let keys = StoreV::name_keys(s.projects);
    let order = s.project_order();
    lemma_stable_order_shape(keys, keys.len());
    assert forall|i: int, j: int| 0 <= i < j < snap.projects.len() implies
        !lex_lt(lower_chars((#[trigger] snap.projects[j]).name), lower_chars((#[trigger] snap.projects[i]).name)) by {
        assert(snap.projects[i].name == s.projects[order[i]].name);
        assert(snap.projects[j].name == s.projects[order[j]].name);
        assert(!lex_lt(keys[order[j]], keys[order[i]]));
    }
    assert forall|k: int| 0 <= k < s.projects.len() implies exists|i: int| 0 <= i < snap.projects.len()
        && (#[trigger] snap.projects[i]).id == (#[trigger] s.projects[k]).id by {
        lemma_permutes_covers(order, s.projects.len() as int, k);
        let i = choose|i: int| 0 <= i < order.len() && order[i] == k;
        assert(snap.projects[i].id == s.projects[k].id);
    }
    if !locked {
        assert forall|i: int| 0 <= i < snap.projects.len() implies {
            let es = (#[trigger] snap.projects[i]).entries;
            forall|a: int, b: int| 0 <= a < b < es.len() ==> !lex_lt(lower_chars((#[trigger] es[b]).name), lower_chars((#[trigger] es[a]).name))
        } by {
            let pid = s.projects[order[i]].id;
            let ents = s.entries.filter(crate::store::entry_of_project(pid));
            let ek = crate::store::entry_keys(ents);
            lemma_stable_order_shape(ek, ek.len());
            let eo = stable_order(ek);
            let es = snap.projects[i].entries;
            assert(es == s.project_entries(pid));
            assert forall|a: int, b: int| 0 <= a < b < es.len() implies !lex_lt(lower_chars((#[trigger] es[b]).name), lower_chars((#[trigger] es[a]).name)) by {
                assert(es[a].name == ents[eo[a]].name);
                assert(es[b].name == ents[eo[b]].name);
                assert(!lex_lt(ek[eo[b]], ek[eo[a]]));
            }
        }
    }
}

/// A list of `n` distinct positions below `n` holds each of them.
proof fn lemma_permutes_covers(order: Seq<int>, n: int, k: int)
    requires
        permutes(order, n),
        0 <= k < n,
    ensures
        exists|i: int| 0 <= i < order.len() && order[i] == k,
{
    if !(exists|i: int| 0 <= i < order.len() && order[i] == k) {
        // `order` would map `n` positions into the `n - 1` values other than `k`.
        let s = order.to_set();
        let full = Set::new(|x: int| 0 <= x < n && x != k);
        assert forall|x: int| s.contains(x) implies full.contains(x) by {
            let i = choose|i: int| 0 <= i < order.len() && order[i] == x;
        }
        vstd::set_lib::lemma_int_range(0, n);
        assert(full =~= vstd::set_lib::set_int_range(0, n).remove(k));
        assert(vstd::set_lib::set_int_range(0, n).contains(k));
        assert(full.len() == n - 1);
        vstd::set_lib::lemma_len_subset(s, full);
        assert(order.no_duplicates()) by {
            assert forall|i: int, j: int| 0 <= i < order.len() && 0 <= j < order.len() && i != j implies order[i] != order[j] by {
                if i < j {
                    assert(order[i] != order[j]);
                } else {
                    assert(order[j] != order[i]);
                }
            }
        }
        order.unique_seq_to_set();
    }
}

// ---------------------------------------------------------------- what an import leaves

/// Some entry of the project has the name.
pub open spec fn names_entry(s: StoreV, pid: Seq<char>, name: Seq<char>) -> bool {
    exists|m: int| 0 <= m < s.entries.len() && (#[trigger] s.entries[m]).project_id == pid && s.entries[m].name == name
}

proof fn lemma_import_fold_names(
    s0: StoreV,
    pid: Seq<char>,
    env: Seq<char>,
    items: Seq<ImportEntryItem>,
    key: Seq<u8>,
    ids: Seq<Seq<char>>,
    texts: Seq<Seq<char>>,
)
    ensures
        import_fold(s0, pid, env, items, key, ids, texts) matches Ok((s, c, u)) ==> {
            &&& s.entries.len() >= s0.entries.len()
            &&& forall|m: int| 0 <= m < s0.entries.len() ==> #[trigger] s.entries[m] == s0.entries[m]
            &&& forall|i: int| 0 <= i < items.len() && crate::normalize::entry_name_of((#[trigger] items[i]).name@).len() > 0
                ==> names_entry(s, pid, crate::normalize::entry_name_of(items[i].name@))
        },
    decreases items.len(),
{
    if items.len() > 0 {
        let d = items.drop_last();
        lemma_import_fold_names(s0, pid, env, d, key, ids, texts);
        match import_fold(s0, pid, env, d, key, ids, texts) {
            Err(_) => {},
            Ok((p, c, u)) => {
                let r = import_fold(s0, pid, env, items, key, ids, texts);
                if r is Ok {
                    let t = r->Ok_0.0;
                    let name = crate::normalize::entry_name_of(items.last().name@);
                    assert(t.entries.len() >= p.entries.len());
                    assert(forall|m: int| 0 <= m < p.entries.len() ==> #[trigger] t.entries[m] == p.entries[m]);
                    assert forall|i: int| 0 <= i < items.len() && crate::normalize::entry_name_of((#[trigger] items[i]).name@).len() > 0
                        implies names_entry(t, pid, crate::normalize::entry_name_of(items[i].name@)) by {
                        let n_i = crate::normalize::entry_name_of(items[i].name@);
                        if i < d.len() {
                            assert(d[i] == items[i]);
                            let m = choose|m: int| 0 <= m < p.entries.len() && (#[trigger] p.entries[m]).project_id == pid && p.entries[m].name == n_i;
                            assert(t.entries[m] == p.entries[m]);
                        } else {
                            let k = first_index(p.entries, entry_named(pid, name));
                            lemma_first_index(p.entries, entry_named(pid, name));
                            if k >= 0 {
                                assert(t.entries[k] == p.entries[k]);
                            } else {
                                assert(t.entries[p.entries.len() as int].name == name);
                            }
                        }
                    }
                }
            },
        }
    }
}

/// An import that succeeds counts each item whose name normalises to
/// something as created or updated, and leaves an entry of the project with
/// each such name.
pub proof fn lemma_import_entries_counts(
    s: StoreV,
    pid: Seq<char>,
    environment: Seq<char>,
    items: Seq<ImportEntryItem>,
    key: Seq<u8>,
    ids: Seq<Seq<char>>,
    texts: Seq<Seq<char>>,
)
    requires
        s.import_entries(pid, environment, items, key, ids, texts) is Ok,
    ensures
        ({
            let (t, created, updated) = s.import_entries(pid, environment, items, key, ids, texts)->Ok_0;
            &&& created + updated == accepted_values(items).len()
            &&& forall|i: int| 0 <= i < items.len() && crate::normalize::entry_name_of((#[trigger] items[i]).name@).len() > 0
                ==> names_entry(t, pid, crate::normalize::entry_name_of(items[i].name@))
        }),
{
    let env = env_label_of(environment);
    lemma_fold_counts(s, pid, env, items, key, ids, texts);
    lemma_import_fold_names(s, pid, env, items, key, ids, texts);
}

// ---------------------------------------------------------------- what an import leaves to read

/// No later item has the same normalised name.
pub open spec fn last_named(items: Seq<ImportEntryItem>, i: int) -> bool {
    forall|j: int| i < j < items.len() ==> entry_name_of((#[trigger] items[j]).name@) != entry_name_of(items[i].name@)
}

/// How many items before position `i` are not skipped: the position of
/// item `i`'s stored text among those of the import.
pub open spec fn accepted_before(items: Seq<ImportEntryItem>, i: int) -> int {
    accepted_values(items.take(i)).len() as int
}

/// Each item that is the last one with its name has its stored text as the
/// value for `env` of the first entry of the project with that name.
pub open spec fn import_reads(s: StoreV, pid: Seq<char>, env: Seq<char>, items: Seq<ImportEntryItem>, texts: Seq<Seq<char>>) -> bool {
    forall|i: int| #![trigger items[i]] 0 <= i < items.len() && entry_name_of(items[i].name@).len() > 0 && last_named(items, i) ==> {
        let k = first_index(s.entries, entry_named(pid, entry_name_of(items[i].name@)));
        &&& k >= 0
        &&& s.stored_text(s.entries[k].id, env) == Some(texts[accepted_before(items, i)])
    }
}

/// The accepted values of a prefix of the items begin the accepted values
/// of all of them.
proof fn lemma_accepted_prefix(items: Seq<ImportEntryItem>, n: int)
    requires
        0 <= n <= items.len(),
    ensures
        accepted_values(items.take(n)).len() <= accepted_values(items).len(),
        accepted_values(items).take(accepted_values(items.take(n)).len() as int) == accepted_values(items.take(n)),
    decreases items.len() - n,
{
    if n == items.len() {
        assert(items.take(n) =~= items);
        assert(accepted_values(items).take(accepted_values(items).len() as int) =~= accepted_values(items));
    } else {
        let d = items.drop_last();
        lemma_accepted_prefix(d, n);
        assert(d.take(n) =~= items.take(n));
        assert(items.drop_last() =~= d);
        let a = accepted_values(d);
        let b = accepted_values(items.take(n));
        if entry_name_of(items.last().name@).len() > 0 {
            assert(accepted_values(items) == a.push(items.last().value@));
            assert(a.push(items.last().value@).take(b.len() as int) =~= a.take(b.len() as int));
        }
    }
}

/// An item that is not skipped has its value at its position among the
/// accepted values.
proof fn lemma_accepted_at(items: Seq<ImportEntryItem>, i: int)
    requires
        0 <= i < items.len(),
        entry_name_of(items[i].name@).len() > 0,
    ensures
        accepted_before(items, i) < accepted_values(items).len(),
        accepted_values(items)[accepted_before(items, i)] == items[i].value@,
{
    lemma_accepted_prefix(items, i + 1);
    let t = items.take(i + 1);
    assert(t.drop_last() =~= items.take(i));
    assert(t.last() == items[i]);
    let b = accepted_values(t);
    assert(b == accepted_values(items.take(i)).push(items[i].value@));
    assert(accepted_values(items).take(b.len() as int)[accepted_before(items, i)] == b[accepted_before(items, i)]);
}

/// The reads that hold after the items but the last still hold when the
/// last item is skipped or names another entry.
proof fn lemma_import_reads_step(
    p: StoreV,
    s: StoreV,
    pid: Seq<char>,
    env: Seq<char>,
    items: Seq<ImportEntryItem>,
    texts: Seq<Seq<char>>,
)
    requires
        items.len() > 0,
        p.consistent(),
        import_reads(p, pid, env, items.drop_last(), texts),
        ({
            let name = entry_name_of(items.last().name@);
            let d = items.drop_last();
            let k = first_index(s.entries, entry_named(pid, name));
            &&& name.len() > 0 ==> k >= 0 && s.stored_text(s.entries[k].id, env) == Some(texts[accepted_values(d).len() as int])
            &&& s.entries.len() >= p.entries.len()
            &&& forall|m: int| 0 <= m < p.entries.len() ==> #[trigger] s.entries[m] == p.entries[m]
            &&& forall|q: Seq<char>| #![trigger first_index(p.entries, entry_named(pid, q))]
                q != name && first_index(p.entries, entry_named(pid, q)) >= 0 ==> {
                    let kq = first_index(p.entries, entry_named(pid, q));
                    s.stored_text(p.entries[kq].id, env) == p.stored_text(p.entries[kq].id, env)
                }
            &&& name.len() == 0 ==> s == p
        }),
    ensures
        import_reads(s, pid, env, items, texts),
{
    let d = items.drop_last();
    let n = items.len() - 1;
    let name = entry_name_of(items.last().name@);
    assert forall|i: int| #![trigger items[i]] 0 <= i < items.len() && entry_name_of(items[i].name@).len() > 0 && last_named(items, i) implies {
        let k = first_index(s.entries, entry_named(pid, entry_name_of(items[i].name@)));
        &&& k >= 0
        &&& s.stored_text(s.entries[k].id, env) == Some(texts[accepted_before(items, i)])
    } by {
        let ni = entry_name_of(items[i].name@);
        if i == n {
            assert(items.take(n) =~= d);
        } else {
            assert(d[i] == items[i]);
            assert(items.take(i) =~= d.take(i));
            assert forall|j: int| i < j < d.len() implies entry_name_of((#[trigger] d[j]).name@) != entry_name_of(d[i].name@) by {
                assert(d[j] == items[j]);
            }
            assert(last_named(d, i));
            assert(ni != name) by {
                assert(items[n] == items.last());
            }
            let kp = first_index(p.entries, entry_named(pid, ni));
            assert(kp >= 0);
            lemma_first_index(p.entries, entry_named(pid, ni));
            lemma_first_index(s.entries, entry_named(pid, ni));
            let ks = first_index(s.entries, entry_named(pid, ni));
            assert(s.entries[kp] == p.entries[kp]);
            if ks != kp {
                if ks < kp {
                    assert(s.entries[ks] == p.entries[ks]);
                }
            }
        }
    }
}

/// Setting one value of an entry: that value reads as set, and the values
/// of other entries read as before.
proof fn lemma_with_value_reads(p: StoreV, eid: Seq<char>, env: Seq<char>, text: Seq<char>)
    ensures
        p.with_value(eid, env, text).stored_text(eid, env) == Some(text),
        forall|q: Seq<char>| q != eid ==> #[trigger] p.with_value(eid, env, text).stored_text(q, env) == p.stored_text(q, env),
        p.with_value(eid, env, text).entries == p.entries,
{
    let s = p.with_value(eid, env, text);
    let hit = value_is(eid, env);
    if first_index(p.values, hit) >= 0 {
        let f = |v: ValueV| if v.entry_id == eid && v.environment == env { ValueV { encrypted: text, ..v } } else { v };
        assert(s.values == p.values.map_values(f));
        lemma_first_index_map(p.values, f, hit);
        lemma_first_index(p.values, hit);
        assert forall|q: Seq<char>| q != eid implies #[trigger] s.stored_text(q, env) == p.stored_text(q, env) by {
            lemma_first_index_map(p.values, f, value_is(q, env));
            lemma_first_index(p.values, value_is(q, env));
            let j = first_index(p.values, value_is(q, env));
            if j >= 0 {
                assert(s.values[j] == f(p.values[j]));
                assert(p.values[j].entry_id == q);
            }
        }
    } else {
        let v = ValueV { entry_id: eid, environment: env, encrypted: text };
        lemma_first_index(p.values, hit);
        lemma_first_index_push(p.values, v, hit);
        assert forall|q: Seq<char>| q != eid implies #[trigger] s.stored_text(q, env) == p.stored_text(q, env) by {
            lemma_push_other_value(p.values, v, q, env);
            lemma_first_index(p.values, value_is(q, env));
            let j = first_index(p.values, value_is(q, env));
            if j >= 0 {
                assert(s.values[j] == p.values[j]);
            }
        }
    }
}

/// A pushed value of another entry does not change what is read.
proof fn lemma_push_other_value(vs: Seq<ValueV>, v: ValueV, q: Seq<char>, env: Seq<char>)
    requires
        v.entry_id != q,
    ensures
        first_index(vs.push(v), value_is(q, env)) == first_index(vs, value_is(q, env)),
{
    assert(vs.push(v).drop_last() =~= vs);
}

/// The reads after an import's items.
proof fn lemma_import_fold_reads(
    s0: StoreV,
    pid: Seq<char>,
    env: Seq<char>,
    items: Seq<ImportEntryItem>,
    key: Seq<u8>,
    ids: Seq<Seq<char>>,
    texts: Seq<Seq<char>>,
)
    requires
        s0.consistent(),
        s0.has_project(pid),
    ensures
        import_fold(s0, pid, env, items, key, ids, texts) matches Ok((s, c, u)) ==> import_reads(s, pid, env, items, texts),
    decreases items.len(),
{
    if items.len() > 0 {
        let d = items.drop_last();
        lemma_import_fold_reads(s0, pid, env, d, key, ids, texts);
        match import_fold(s0, pid, env, d, key, ids, texts) {
            Err(_) => {},
            Ok((p, c, u)) => {
                let r = import_fold(s0, pid, env, items, key, ids, texts);
                if r is Ok {
                    let s = r->Ok_0.0;
                    lemma_import_fold_consistent(s0, pid, env, d, key, ids, texts);
                    lemma_fold_counts(s0, pid, env, d, key, ids, texts);
                    let name = entry_name_of(items.last().name@);
                    if name.len() > 0 {
                        let k = first_index(p.entries, entry_named(pid, name));
                        let text = texts[(c + u) as int];
                        lemma_first_index(p.entries, entry_named(pid, name));
                        if k >= 0 {
                            let eid = p.entries[k].id;
                            lemma_with_value_reads(p, eid, env, text);
                            assert(s == p.with_value(eid, env, text));
                            assert forall|q: Seq<char>| #![trigger first_index(p.entries, entry_named(pid, q))]
                                q != name && first_index(p.entries, entry_named(pid, q)) >= 0 implies {
                                    let kq = first_index(p.entries, entry_named(pid, q));
                                    s.stored_text(p.entries[kq].id, env) == p.stored_text(p.entries[kq].id, env)
                                } by {
                                let kq = first_index(p.entries, entry_named(pid, q));
                                lemma_first_index(p.entries, entry_named(pid, q));
                                assert(p.entries[kq].name == q);
                                assert(kq != k);
                                assert(p.entries[kq].id != eid);
                                assert(p.with_value(eid, env, text).stored_text(p.entries[kq].id, env) == p.stored_text(p.entries[kq].id, env));
                            }
                        } else {
                            let id = ids[c as int];
                            let e = crate::store::EntryV { id, project_id: pid, name, category: None, description: None };
                            let v = ValueV { entry_id: id, environment: env, encrypted: text };
                            assert(s.entries == p.entries.push(e));
                            assert(s.values == p.values.push(v));
                            lemma_first_index_push(p.entries, e, entry_named(pid, name));
                            assert forall|j: int| 0 <= j < p.values.len() implies !(#[trigger] value_is(id, env)(p.values[j])) by {
                                assert(p.has_entry(p.values[j].entry_id));
                            }
                            lemma_first_index_push(p.values, v, value_is(id, env));
                            assert forall|m: int| 0 <= m < p.entries.len() implies #[trigger] s.entries[m] == p.entries[m] by {}
                            assert forall|q: Seq<char>| #![trigger first_index(p.entries, entry_named(pid, q))]
                                q != name && first_index(p.entries, entry_named(pid, q)) >= 0 implies {
                                    let kq = first_index(p.entries, entry_named(pid, q));
                                    s.stored_text(p.entries[kq].id, env) == p.stored_text(p.entries[kq].id, env)
                                } by {
                                let kq = first_index(p.entries, entry_named(pid, q));
                                lemma_first_index(p.entries, entry_named(pid, q));
                                assert(p.entries[kq].id != id);
                                lemma_push_other_value(p.values, v, p.entries[kq].id, env);
                                lemma_first_index(p.values, value_is(p.entries[kq].id, env));
                                let j = first_index(p.values, value_is(p.entries[kq].id, env));
                                if j >= 0 {
                                    assert(s.values[j] == p.values[j]);
                                }
                            }
                        }
                    }
                    lemma_import_reads_step(p, s, pid, env, items, texts);
                }
            },
        }
    }
}

/// After an import, each name imported reads, for the imported environment,
/// as the last value given for it: the project has exactly one entry with
/// that name, and it holds that value's stored text, which decrypts to the
/// value.
#[verifier::spinoff_prover]
pub proof fn lemma_import_entries_reads_back(
    s: StoreV,
    pid: Seq<char>,
    environment: Seq<char>,
    items: Seq<ImportEntryItem>,
    key: Seq<u8>,
    ids: Seq<Seq<char>>,
    texts: Seq<Seq<char>>,
)
    requires
        s.consistent(),
        s.import_entries(pid, environment, items, key, ids, texts) is Ok,
        texts.len() == accepted_values(items).len(),
        forall|j: int| 0 <= j < texts.len() ==> is_stored_form(key, #[trigger] texts[j], accepted_values(items)[j]),
    ensures
        ({
            let t = s.import_entries(pid, environment, items, key, ids, texts)->Ok_0.0;
            let env = env_label_of(environment);
            forall|i: int| #![trigger items[i]] 0 <= i < items.len() && entry_name_of(items[i].name@).len() > 0 && last_named(items, i) ==> {
                let k = first_index(t.entries, entry_named(pid, entry_name_of(items[i].name@)));
                &&& k >= 0
                &&& forall|m: int| 0 <= m < t.entries.len() && (#[trigger] t.entries[m]).project_id == pid
                    && t.entries[m].name == entry_name_of(items[i].name@) ==> m == k
                &&& t.stored_text(t.entries[k].id, env) == Some(texts[accepted_before(items, i)])
                &&& decrypted_text(key, texts[accepted_before(items, i)]) == Some(items[i].value@)
            }
        }),
{
    crate::consistent::lemma_import_entries_consistent(s, pid, environment, items, key, ids, texts);
    let env = env_label_of(environment);
    lemma_first_index(s.projects, project_has_id(pid));
    assert(s.projects[s.project_index(pid)].id == pid);
    lemma_import_fold_reads(s, pid, env, items, key, ids, texts);
    let t = s.import_entries(pid, environment, items, key, ids, texts)->Ok_0.0;
    assert forall|i: int| #![trigger items[i]] 0 <= i < items.len() && entry_name_of(items[i].name@).len() > 0 && last_named(items, i) implies
        forall|m: int| 0 <= m < t.entries.len() && (#[trigger] t.entries[m]).project_id == pid
            && t.entries[m].name == entry_name_of(items[i].name@)
            ==> m == first_index(t.entries, entry_named(pid, entry_name_of(items[i].name@))) by {
        lemma_only_entry_named(t, pid, entry_name_of(items[i].name@));
    }
    assert forall|i: int| #![trigger items[i]] 0 <= i < items.len() && entry_name_of(items[i].name@).len() > 0 && last_named(items, i) implies
        decrypted_text(key, texts[accepted_before(items, i)]) == Some(items[i].value@) by {
        lemma_accepted_at(items, i);
        lemma_stored_form_decrypts(key, texts[accepted_before(items, i)], items[i].value@);
    }
}

/// In a consistent store, the first entry of a project with a name is the
/// only one.
proof fn lemma_only_entry_named(t: StoreV, pid: Seq<char>, n: Seq<char>)
    requires
        t.consistent(),
    ensures
        forall|m: int| 0 <= m < t.entries.len() && (#[trigger] t.entries[m]).project_id == pid && t.entries[m].name == n
            ==> m == first_index(t.entries, entry_named(pid, n)),
{
    let k = first_index(t.entries, entry_named(pid, n));
    lemma_first_index(t.entries, entry_named(pid, n));
    assert forall|m: int| 0 <= m < t.entries.len() && (#[trigger] t.entries[m]).project_id == pid && t.entries[m].name == n implies m == k by {
        if m != k {
            if k < 0 || m < k {
                assert(entry_named(pid, n)(t.entries[m]));
            } else {
                assert(crate::consistent::by_entry_key()(t.entries[k]) != crate::consistent::by_entry_key()(t.entries[m]));
            }
        }
    }
}


// ---------------------------------------------------------------- what an operation leaves alone

/// Pushing an element that does not match leaves the first match where it was.
proof fn lemma_first_index_push_other<T>(s: Seq<T>, x: T, p: spec_fn(T) -> bool)
    requires
        !p(x),
    ensures
        first_index(s.push(x), p) == first_index(s, p),
{
    assert(s.push(x).drop_last() =~= s);
}

/// Filtering by a predicate that every match passes keeps the first match.
proof fn lemma_first_index_filter<T>(s: Seq<T>, keep: spec_fn(T) -> bool, p: spec_fn(T) -> bool)
    requires
        forall|x: T| #[trigger] p(x) ==> keep(x),
    ensures
        (first_index(s.filter(keep), p) >= 0) == (first_index(s, p) >= 0),
        first_index(s, p) >= 0 ==> s.filter(keep)[first_index(s.filter(keep), p)] == s[first_index(s, p)],
    decreases s.len(),
{
    reveal(Seq::filter);
    if s.len() > 0 {
        let d = s.drop_last();
        lemma_first_index_filter(d, keep, p);
        lemma_first_index(d, p);
        lemma_first_index(d.filter(keep), p);
        if keep(s.last()) {
            assert(s.filter(keep) == d.filter(keep).push(s.last()));
            assert(d.filter(keep).push(s.last()).drop_last() =~= d.filter(keep));
        } else {
            assert(s.filter(keep) == d.filter(keep));
        }
    }
}

/// Setting the override of one entry leaves the override of every other
/// entry, of this project or another, as it was.
pub proof fn lemma_with_override_keeps_others(s: StoreV, pid: Seq<char>, eid: Seq<char>, l: Seq<char>)
    ensures
        forall|pid2: Seq<char>, eid2: Seq<char>| !(pid2 == pid && eid2 == eid) ==>
            #[trigger] s.with_override(pid, eid, l).override_env(pid2, eid2) == s.override_env(pid2, eid2),
{
    let t = s.with_override(pid, eid, l);
    assert forall|pid2: Seq<char>, eid2: Seq<char>| !(pid2 == pid && eid2 == eid) implies
        #[trigger] t.override_env(pid2, eid2) == s.override_env(pid2, eid2) by {
        let q = override_is(pid2, eid2);
        lemma_first_index(s.overrides, q);
        let j = first_index(s.overrides, q);
        if first_index(s.overrides, override_is(pid, eid)) >= 0 {
            let f = |o: OverrideV| if o.project_id == pid && o.entry_id == eid { OverrideV { environment: l, ..o } } else { o };
            assert(t.overrides == s.overrides.map_values(f));
            lemma_first_index_map(s.overrides, f, q);
            if j >= 0 {
                assert(t.overrides[j] == f(s.overrides[j]));
            }
        } else {
            let o = OverrideV { project_id: pid, entry_id: eid, environment: l };
            assert(t.overrides == s.overrides.push(o));
            lemma_first_index_push_other(s.overrides, o, q);
            if j >= 0 {
                assert(t.overrides[j] == s.overrides[j]);
            }
        }
    }
}

/// Setting or clearing the override of one entry leaves the override of
/// every other entry, of this project or another, as it was.
pub proof fn lemma_set_entry_override_keeps_others(s: StoreV, pid: Seq<char>, eid: Seq<char>, env: Option<Seq<char>>)
    requires
        s.set_entry_override(pid, eid, env) is Ok,
    ensures
        forall|pid2: Seq<char>, eid2: Seq<char>| !(pid2 == pid && eid2 == eid) ==>
            #[trigger] s.set_entry_override(pid, eid, env)->Ok_0.override_env(pid2, eid2) == s.override_env(pid2, eid2),
{
    let t = s.set_entry_override(pid, eid, env)->Ok_0;
    if t == s.without_override(pid, eid) {
        assert forall|pid2: Seq<char>, eid2: Seq<char>| !(pid2 == pid && eid2 == eid) implies
            #[trigger] t.override_env(pid2, eid2) == s.override_env(pid2, eid2) by {
            lemma_first_index_filter(s.overrides, override_not(pid, eid), override_is(pid2, eid2));
        }
    } else {
        lemma_with_override_keeps_others(s, pid, eid, env_label_of(env->Some_0));
    }
}

/// Setting one value leaves every value of another environment as it was.
pub proof fn lemma_with_value_keeps_other_envs(p: StoreV, eid: Seq<char>, env: Seq<char>, text: Seq<char>)
    ensures
        forall|q: Seq<char>, e: Seq<char>| e != env ==> #[trigger] p.with_value(eid, env, text).stored_text(q, e) == p.stored_text(q, e),
        p.with_value(eid, env, text).entries == p.entries,
{
    let s = p.with_value(eid, env, text);
    assert forall|q: Seq<char>, e: Seq<char>| e != env implies #[trigger] s.stored_text(q, e) == p.stored_text(q, e) by {
        let h = value_is(q, e);
        lemma_first_index(p.values, h);
        let j = first_index(p.values, h);
        if first_index(p.values, value_is(eid, env)) >= 0 {
            let f = |v: ValueV| if v.entry_id == eid && v.environment == env { ValueV { encrypted: text, ..v } } else { v };
            assert(s.values == p.values.map_values(f));
            lemma_first_index_map(p.values, f, h);
            if j >= 0 {
                assert(s.values[j] == f(p.values[j]));
            }
        } else {
            let v = ValueV { entry_id: eid, environment: env, encrypted: text };
            lemma_first_index_push_other(p.values, v, h);
            if j >= 0 {
                assert(s.values[j] == p.values[j]);
            }
        }
    }
}

proof fn lemma_import_fold_keeps_other_envs(
    s0: StoreV,
    pid: Seq<char>,
    env: Seq<char>,
    items: Seq<ImportEntryItem>,
    key: Seq<u8>,
    ids: Seq<Seq<char>>,
    texts: Seq<Seq<char>>,
)
    ensures
        import_fold(s0, pid, env, items, key, ids, texts) matches Ok((s, c, u)) ==>
            forall|q: Seq<char>, e: Seq<char>| e != env ==> #[trigger] s.stored_text(q, e) == s0.stored_text(q, e),
    decreases items.len(),
{
    if items.len() > 0 {
        let d = items.drop_last();
        lemma_import_fold_keeps_other_envs(s0, pid, env, d, key, ids, texts);
        match import_fold(s0, pid, env, d, key, ids, texts) {
            Err(_) => {},
            Ok((p, c, u)) => {
                let r = import_fold(s0, pid, env, items, key, ids, texts);
                if r is Ok {
                    let s = r->Ok_0.0;
                    let name = entry_name_of(items.last().name@);
                    if name.len() > 0 {
                        let k = first_index(p.entries, entry_named(pid, name));
                        let text = texts[(c + u) as int];
                        if k >= 0 {
                            lemma_with_value_keeps_other_envs(p, p.entries[k].id, env, text);
                        } else {
                            let id = ids[c as int];
                            let v = ValueV { entry_id: id, environment: env, encrypted: text };
                            assert(s.values == p.values.push(v));
                            assert forall|q: Seq<char>, e: Seq<char>| e != env implies #[trigger] s.stored_text(q, e) == p.stored_text(q, e) by {
                                lemma_first_index_push_other(p.values, v, value_is(q, e));
                                lemma_first_index(p.values, value_is(q, e));
                                let j = first_index(p.values, value_is(q, e));
                                if j >= 0 {
                                    assert(s.values[j] == p.values[j]);
                                }
                            }
                        }
                    }
                }
            },
        }
    }
}

/// An import into one environment leaves the stored value of every entry for
/// every other environment as it was.
pub proof fn lemma_import_entries_keeps_other_envs(
    s: StoreV,
    pid: Seq<char>,
    environment: Seq<char>,
    items: Seq<ImportEntryItem>,
    key: Seq<u8>,
    ids: Seq<Seq<char>>,
    texts: Seq<Seq<char>>,
)
    requires
        s.import_entries(pid, environment, items, key, ids, texts) is Ok,
    ensures
        forall|q: Seq<char>, e: Seq<char>| e != env_label_of(environment) ==>
            #[trigger] s.import_entries(pid, environment, items, key, ids, texts)->Ok_0.0.stored_text(q, e) == s.stored_text(q, e),
{
    lemma_import_fold_keeps_other_envs(s, pid, env_label_of(environment), items, key, ids, texts);
}

/// When the active project is deleted and others remain, the active project
/// becomes one of them whose name comes first ignoring ASCII case; deleting
/// another project leaves the active one as it was.
pub proof fn lemma_delete_project_next_active(s: StoreV, pid: Seq<char>)
    requires
        s.delete_project(pid) is Ok,
    ensures
        s.active != Some(pid) ==> s.delete_project(pid)->Ok_0.active == s.active,
        s.active == Some(pid) && (exists|j: int| 0 <= j < s.projects.len() && (#[trigger] s.projects[j]).id != pid) ==> {
            let t = s.delete_project(pid)->Ok_0;
            &&& t.active is Some
            &&& exists|k: int| 0 <= k < s.projects.len() && (#[trigger] s.projects[k]).id == t.active->Some_0 && s.projects[k].id != pid
                && forall|j: int| 0 <= j < s.projects.len() && (#[trigger] s.projects[j]).id != pid
                    ==> !lex_lt(lower_chars(s.projects[j].name), lower_chars(s.projects[k].name))
        },
{
    let t = s.delete_project(pid)->Ok_0;
    let ps = s.projects.filter(crate::store::project_not_id(pid));
    let keys = StoreV::name_keys(ps);
    let order = stable_order(keys);
    if s.active == Some(pid) && (exists|j: int| 0 <= j < s.projects.len() && (#[trigger] s.projects[j]).id != pid) {
        let j0 = choose|j: int| 0 <= j < s.projects.len() && (#[trigger] s.projects[j]).id != pid;
        crate::consistent::lemma_filter_to(s.projects, crate::store::project_not_id(pid), j0);
        lemma_stable_order_shape(keys, keys.len());
        assert(order.len() == ps.len());
        assert(order.len() > 0);
        let first = order[0];
        assert(0 <= first < ps.len());
        assert(t.active == Some(ps[first].id));
        crate::consistent::lemma_filter_from(s.projects, crate::store::project_not_id(pid));
        s.projects.lemma_filter_pred(crate::store::project_not_id(pid), first);
        let k = choose|k: int| 0 <= k < s.projects.len() && #[trigger] s.projects[k] == ps[first];
        assert forall|j: int| 0 <= j < s.projects.len() && (#[trigger] s.projects[j]).id != pid
            implies !lex_lt(lower_chars(s.projects[j].name), lower_chars(s.projects[k].name)) by {
            crate::consistent::lemma_filter_to(s.projects, crate::store::project_not_id(pid), j);
            let m = choose|m: int| 0 <= m < ps.len() && #[trigger] ps[m] == s.projects[j];
            lemma_permutes_covers(order, ps.len() as int, m);
            let i = choose|i: int| 0 <= i < order.len() && order[i] == m;
            assert(keys[m] == lower_chars(s.projects[j].name));
            assert(keys[first] == lower_chars(s.projects[k].name));
            if i > 0 {
                assert(!lex_lt(keys[order[i]], keys[order[0]]));
            } else {
                lemma_lex_irreflexive(keys[m]);
            }
        }
    }
}

/// The environments listed for an entry are exactly those of its stored
/// values.
pub proof fn lemma_value_envs_exact(s: StoreV, eid: Seq<char>)
    ensures
        forall|env: Seq<char>| #[trigger] s.value_envs(eid).contains(env) <==>
            exists|k: int| 0 <= k < s.values.len() && (#[trigger] s.values[k]).entry_id == eid && s.values[k].environment == env,
{
    let p = value_of_entry(eid);
    let vs = s.values.filter(p);
    let o = stable_order(value_keys(vs));
    lemma_stable_order_shape(value_keys(vs), vs.len());
    let envs = s.value_envs(eid);
    assert(envs.len() == o.len());
    assert forall|i: int| 0 <= i < envs.len() implies #[trigger] envs[i] == vs[o[i]].environment by {}
    crate::consistent::lemma_filter_from(s.values, p);
    assert forall|env: Seq<char>| #[trigger] envs.contains(env) <==>
        exists|k: int| 0 <= k < s.values.len() && (#[trigger] s.values[k]).entry_id == eid && s.values[k].environment == env by {
        if envs.contains(env) {
            let i = choose|i: int| 0 <= i < envs.len() && envs[i] == env;
            let m = o[i];
            s.values.lemma_filter_pred(p, m);
            let k = choose|k: int| 0 <= k < s.values.len() && #[trigger] s.values[k] == vs[m];
            assert(s.values[k].entry_id == eid && s.values[k].environment == env);
        }
        if exists|k: int| 0 <= k < s.values.len() && (#[trigger] s.values[k]).entry_id == eid && s.values[k].environment == env {
            let k = choose|k: int| 0 <= k < s.values.len() && (#[trigger] s.values[k]).entry_id == eid && s.values[k].environment == env;
            crate::consistent::lemma_filter_to(s.values, p, k);
            let m = choose|m: int| 0 <= m < vs.len() && #[trigger] vs[m] == s.values[k];
            lemma_permutes_covers(o, vs.len() as int, m);
            let i = choose|i: int| 0 <= i < o.len() && o[i] == m;
            assert(envs[i] == env);
        }
    }
}

/// An unlocked snapshot lists under each project only entries of that
/// project, and under each entry exactly the environments for which a value
/// of that entry is stored.
pub proof fn lemma_snapshot_entries_own(s: StoreV)
    ensures
        forall|i: int, m: int| #![trigger s.snapshot(false).projects[i].entries[m]]
            0 <= i < s.snapshot(false).projects.len() && 0 <= m < s.snapshot(false).projects[i].entries.len() ==> {
            let pr = s.snapshot(false).projects[i];
            let r = pr.entries[m];
            &&& exists|j: int| 0 <= j < s.entries.len() && (#[trigger] s.entries[j]).id == r.id && s.entries[j].project_id == pr.id
                && s.entries[j].name == r.name
            &&& forall|env: Seq<char>| #[trigger] r.values.contains(env) <==>
                exists|k: int| 0 <= k < s.values.len() && (#[trigger] s.values[k]).entry_id == r.id && s.values[k].environment == env
        },
{
    let snap = s.snapshot(false);
    let order = s.project_order();
    lemma_stable_order_shape(StoreV::name_keys(s.projects), s.projects.len());
    assert forall|i: int, m: int| #![trigger snap.projects[i].entries[m]]
        0 <= i < snap.projects.len() && 0 <= m < snap.projects[i].entries.len() implies {
        let pr = snap.projects[i];
        let r = pr.entries[m];
        &&& exists|j: int| 0 <= j < s.entries.len() && (#[trigger] s.entries[j]).id == r.id && s.entries[j].project_id == pr.id
            && s.entries[j].name == r.name
        &&& forall|env: Seq<char>| #[trigger] r.values.contains(env) <==>
            exists|k: int| 0 <= k < s.values.len() && (#[trigger] s.values[k]).entry_id == r.id && s.values[k].environment == env
    } by {
        let pr = snap.projects[i];
        let pid = s.projects[order[i]].id;
        assert(pr == s.project_record(s.projects[order[i]], true));
        let ef = crate::store::entry_of_project(pid);
        let ents = s.entries.filter(ef);
        let ek = crate::store::entry_keys(ents);
        lemma_stable_order_shape(ek, ek.len());
        let eo = stable_order(ek);
        assert(pr.entries == s.project_entries(pid));
        let e = ents[eo[m]];
        assert(pr.entries[m] == s.entry_record(e));
        s.entries.lemma_filter_pred(ef, eo[m]);
        crate::consistent::lemma_filter_from(s.entries, ef);
        let j = choose|j: int| 0 <= j < s.entries.len() && #[trigger] s.entries[j] == ents[eo[m]];
        assert(s.entries[j].id == pr.entries[m].id && s.entries[j].project_id == pr.id);
        lemma_value_envs_exact(s, e.id);
    }
}

/// Each preview item comes from one of the entries `es`, with the value that
/// entry's source environment holds; each entry of `es` with such a value
/// gives an item.
proof fn lemma_preview_items_from(s: StoreV, key: Seq<u8>, pid: Seq<char>, base: Seq<char>, es: Seq<EntryV>)
    ensures
        s.preview_items(key, pid, base, es) matches Some(items) ==> {
            &&& forall|k: int| 0 <= k < items.len() ==> exists|m: int| 0 <= m < es.len() && (#[trigger] es[m]).id == (#[trigger] items[k]).entry_id
                && es[m].name == items[k].entry_name && items[k].source_environment == s.source_env(pid, base, es[m].id)
                && s.stored_text(es[m].id, items[k].source_environment) is Some
            &&& forall|m: int| 0 <= m < es.len() && s.stored_text((#[trigger] es[m]).id, s.source_env(pid, base, es[m].id)) is Some
                ==> exists|k: int| 0 <= k < items.len() && (#[trigger] items[k]).entry_id == es[m].id
        },
    decreases es.len(),
{
    if es.len() > 0 {
        let d = es.drop_last();
        lemma_preview_items_from(s, key, pid, base, d);
        match s.preview_items(key, pid, base, es) {
            None => {},
            Some(items) => {
                let prev = s.preview_items(key, pid, base, d)->Some_0;
                let n = es.len() - 1;
                assert(es[n] == es.last());
                assert forall|k: int| 0 <= k < items.len() implies exists|m: int| 0 <= m < es.len() && (#[trigger] es[m]).id == (#[trigger] items[k]).entry_id
                    && es[m].name == items[k].entry_name && items[k].source_environment == s.source_env(pid, base, es[m].id)
                    && s.stored_text(es[m].id, items[k].source_environment) is Some by {
                    if k < prev.len() {
                        assert(items[k] == prev[k]);
                        let m = choose|m: int| 0 <= m < d.len() && (#[trigger] d[m]).id == (#[trigger] prev[k]).entry_id
                            && d[m].name == prev[k].entry_name && prev[k].source_environment == s.source_env(pid, base, d[m].id)
                            && s.stored_text(d[m].id, prev[k].source_environment) is Some;
                        assert(es[m] == d[m]);
                    } else {
                        assert(items[k].entry_id == es[n].id);
                    }
                }
                assert forall|m: int| 0 <= m < es.len() && s.stored_text((#[trigger] es[m]).id, s.source_env(pid, base, es[m].id)) is Some
                    implies exists|k: int| 0 <= k < items.len() && (#[trigger] items[k]).entry_id == es[m].id by {
                    if m < n {
                        assert(es[m] == d[m]);
                        let k = choose|k: int| 0 <= k < prev.len() && (#[trigger] prev[k]).entry_id == d[m].id;
                        assert(items[k] == prev[k]);
                    } else {
                        assert(items[prev.len() as int].entry_id == es[n].id);
                    }
                }
            },
        }
    }
}

/// Each skipped entry is one of `es` whose source environment holds no
/// value; each such entry of `es` is skipped.
proof fn lemma_preview_skipped_from(s: StoreV, pid: Seq<char>, base: Seq<char>, es: Seq<EntryV>)
    ensures
        forall|k: int| 0 <= k < s.preview_skipped(pid, base, es).len() ==> exists|m: int| 0 <= m < es.len()
            && (#[trigger] es[m]).name == (#[trigger] s.preview_skipped(pid, base, es)[k]).0
            && s.preview_skipped(pid, base, es)[k].1 == s.source_env(pid, base, es[m].id)
            && s.stored_text(es[m].id, s.source_env(pid, base, es[m].id)) is None,
        forall|m: int| 0 <= m < es.len() && s.stored_text((#[trigger] es[m]).id, s.source_env(pid, base, es[m].id)) is None
            ==> exists|k: int| 0 <= k < s.preview_skipped(pid, base, es).len()
                && (#[trigger] s.preview_skipped(pid, base, es)[k]) == (es[m].name, s.source_env(pid, base, es[m].id)),
    decreases es.len(),
{
    if es.len() > 0 {
        let d = es.drop_last();
        lemma_preview_skipped_from(s, pid, base, d);
        let sk = s.preview_skipped(pid, base, es);
        let prev = s.preview_skipped(pid, base, d);
        let n = es.len() - 1;
        assert(es[n] == es.last());
        let envn = s.source_env(pid, base, es[n].id);
        if s.stored_text(es[n].id, envn) is None {
            assert(sk == prev.push((es[n].name, envn)));
        } else {
            assert(sk == prev);
        }
        assert forall|k: int| 0 <= k < sk.len() implies exists|m: int| 0 <= m < es.len()
            && (#[trigger] es[m]).name == (#[trigger] sk[k]).0
            && sk[k].1 == s.source_env(pid, base, es[m].id)
            && s.stored_text(es[m].id, s.source_env(pid, base, es[m].id)) is None by {
            if k < prev.len() {
                assert(sk[k] == prev[k]);
                let m = choose|m: int| 0 <= m < d.len() && (#[trigger] d[m]).name == (#[trigger] prev[k]).0
                    && prev[k].1 == s.source_env(pid, base, d[m].id)
                    && s.stored_text(d[m].id, s.source_env(pid, base, d[m].id)) is None;
                assert(es[m] == d[m]);
            } else {
                assert(sk[k] == (es[n].name, s.source_env(pid, base, es[n].id)));
            }
        }
        assert forall|m: int| 0 <= m < es.len() && s.stored_text((#[trigger] es[m]).id, s.source_env(pid, base, es[m].id)) is None
            implies exists|k: int| 0 <= k < sk.len() && (#[trigger] sk[k]) == (es[m].name, s.source_env(pid, base, es[m].id)) by {
            if m < n {
                assert(es[m] == d[m]);
                let k = choose|k: int| 0 <= k < prev.len() && (#[trigger] prev[k]) == (d[m].name, s.source_env(pid, base, d[m].id));
                assert(sk[k] == prev[k]);
            } else {
                assert(sk[prev.len() as int] == (es[n].name, s.source_env(pid, base, es[n].id)));
            }
        }
    } else {
        assert(s.preview_skipped(pid, base, es).len() == 0);
    }
}

/// A project's entries by name are exactly the stored entries of that
/// project.
pub proof fn lemma_sorted_entries_own(s: StoreV, pid: Seq<char>)
    ensures
        forall|m: int| 0 <= m < s.sorted_entries(pid).len() ==> (#[trigger] s.sorted_entries(pid)[m]).project_id == pid
            && exists|j: int| 0 <= j < s.entries.len() && #[trigger] s.entries[j] == s.sorted_entries(pid)[m],
        forall|j: int| 0 <= j < s.entries.len() && (#[trigger] s.entries[j]).project_id == pid
            ==> exists|m: int| 0 <= m < s.sorted_entries(pid).len() && #[trigger] s.sorted_entries(pid)[m] == s.entries[j],
{
    let ef = crate::store::entry_of_project(pid);
    let ents = s.entries.filter(ef);
    let ek = crate::store::entry_keys(ents);
    lemma_stable_order_shape(ek, ek.len());
    let eo = stable_order(ek);
    let se = s.sorted_entries(pid);
    assert(se.len() == eo.len());
    crate::consistent::lemma_filter_from(s.entries, ef);
    assert forall|m: int| 0 <= m < se.len() implies (#[trigger] se[m]).project_id == pid
        && exists|j: int| 0 <= j < s.entries.len() && #[trigger] s.entries[j] == se[m] by {
        assert(se[m] == ents[eo[m]]);
        s.entries.lemma_filter_pred(ef, eo[m]);
    }
    assert forall|j: int| 0 <= j < s.entries.len() && (#[trigger] s.entries[j]).project_id == pid
        implies exists|m: int| 0 <= m < se.len() && #[trigger] se[m] == s.entries[j] by {
        crate::consistent::lemma_filter_to(s.entries, ef, j);
        let q = choose|q: int| 0 <= q < ents.len() && #[trigger] ents[q] == s.entries[j];
        lemma_permutes_covers(eo, ents.len() as int, q);
        let m = choose|m: int| 0 <= m < eo.len() && eo[m] == q;
        assert(se[m] == ents[q]);
    }
}

/// What the preview of `es` gives, for entries `es` that are all of the
/// project's entries: each item an entry of the project.
proof fn lemma_preview_items_own(s: StoreV, key: Seq<u8>, pid: Seq<char>, base: Seq<char>, es: Seq<EntryV>)
    requires
        forall|m: int| 0 <= m < es.len() ==> (#[trigger] es[m]).project_id == pid
            && exists|j: int| 0 <= j < s.entries.len() && #[trigger] s.entries[j] == es[m],
    ensures
        s.preview_items(key, pid, base, es) matches Some(items) ==>
            forall|k: int| 0 <= k < items.len() ==> exists|j: int| 0 <= j < s.entries.len()
                && (#[trigger] s.entries[j]).id == (#[trigger] items[k]).entry_id && s.entries[j].project_id == pid
                && s.entries[j].name == items[k].entry_name
                && items[k].source_environment == s.source_env(pid, base, s.entries[j].id)
                && s.stored_text(s.entries[j].id, items[k].source_environment) is Some,
{
    lemma_preview_items_from(s, key, pid, base, es);
    if let Some(items) = s.preview_items(key, pid, base, es) {
        assert forall|k: int| 0 <= k < items.len() implies exists|j: int| 0 <= j < s.entries.len()
            && (#[trigger] s.entries[j]).id == (#[trigger] items[k]).entry_id && s.entries[j].project_id == pid
            && s.entries[j].name == items[k].entry_name
            && items[k].source_environment == s.source_env(pid, base, s.entries[j].id)
            && s.stored_text(s.entries[j].id, items[k].source_environment) is Some by {
            let m = choose|m: int| 0 <= m < es.len() && (#[trigger] es[m]).id == (#[trigger] items[k]).entry_id
                && es[m].name == items[k].entry_name && items[k].source_environment == s.source_env(pid, base, es[m].id)
                && s.stored_text(es[m].id, items[k].source_environment) is Some;
            let j = choose|j: int| 0 <= j < s.entries.len() && #[trigger] s.entries[j] == es[m];
        }
    }
}

/// Each skipped name is an entry of the project with no value for its
/// source environment.
proof fn lemma_preview_skipped_own(s: StoreV, pid: Seq<char>, base: Seq<char>, es: Seq<EntryV>)
    requires
        forall|m: int| 0 <= m < es.len() ==> (#[trigger] es[m]).project_id == pid
            && exists|j: int| 0 <= j < s.entries.len() && #[trigger] s.entries[j] == es[m],
    ensures
        forall|k: int| 0 <= k < s.preview_skipped(pid, base, es).len() ==> exists|j: int| 0 <= j < s.entries.len()
            && (#[trigger] s.entries[j]).name == (#[trigger] s.preview_skipped(pid, base, es)[k]).0 && s.entries[j].project_id == pid
            && s.preview_skipped(pid, base, es)[k].1 == s.source_env(pid, base, s.entries[j].id)
            && s.stored_text(s.entries[j].id, s.preview_skipped(pid, base, es)[k].1) is None,
{
    lemma_preview_skipped_from(s, pid, base, es);
    let sk = s.preview_skipped(pid, base, es);
    assert forall|k: int| 0 <= k < sk.len() implies exists|j: int| 0 <= j < s.entries.len()
        && (#[trigger] s.entries[j]).name == (#[trigger] sk[k]).0 && s.entries[j].project_id == pid
        && sk[k].1 == s.source_env(pid, base, s.entries[j].id)
        && s.stored_text(s.entries[j].id, sk[k].1) is None by {
        let m = choose|m: int| 0 <= m < es.len() && (#[trigger] es[m]).name == (#[trigger] sk[k]).0
            && sk[k].1 == s.source_env(pid, base, es[m].id)
            && s.stored_text(es[m].id, s.source_env(pid, base, es[m].id)) is None;
        let j = choose|j: int| 0 <= j < s.entries.len() && #[trigger] s.entries[j] == es[m];
    }
}

/// Each entry of the project among `es` gives an item or is skipped.
proof fn lemma_preview_covers(s: StoreV, key: Seq<u8>, pid: Seq<char>, base: Seq<char>, es: Seq<EntryV>)
    requires
        forall|j: int| 0 <= j < s.entries.len() && (#[trigger] s.entries[j]).project_id == pid
            ==> exists|m: int| 0 <= m < es.len() && #[trigger] es[m] == s.entries[j],
    ensures
        s.preview_items(key, pid, base, es) matches Some(items) ==>
            forall|j: int| 0 <= j < s.entries.len() && (#[trigger] s.entries[j]).project_id == pid ==> {
                let env = s.source_env(pid, base, s.entries[j].id);
                if s.stored_text(s.entries[j].id, env) is Some {
                    exists|k: int| 0 <= k < items.len() && (#[trigger] items[k]).entry_id == s.entries[j].id
                } else {
                    exists|k: int| 0 <= k < s.preview_skipped(pid, base, es).len()
                        && (#[trigger] s.preview_skipped(pid, base, es)[k]) == (s.entries[j].name, env)
                }
            },
{
    lemma_preview_items_from(s, key, pid, base, es);
    lemma_preview_skipped_from(s, pid, base, es);
    if let Some(items) = s.preview_items(key, pid, base, es) {
        assert forall|j: int| 0 <= j < s.entries.len() && (#[trigger] s.entries[j]).project_id == pid implies {
            let env = s.source_env(pid, base, s.entries[j].id);
            if s.stored_text(s.entries[j].id, env) is Some {
                exists|k: int| 0 <= k < items.len() && (#[trigger] items[k]).entry_id == s.entries[j].id
            } else {
                exists|k: int| 0 <= k < s.preview_skipped(pid, base, es).len()
                    && (#[trigger] s.preview_skipped(pid, base, es)[k]) == (s.entries[j].name, env)
            }
        } by {
            let m = choose|m: int| 0 <= m < es.len() && #[trigger] es[m] == s.entries[j];
            assert(es[m].id == s.entries[j].id);
        }
    }
}

/// Each item of a project's preview is an entry of that project, with the
/// value of its override environment or else of the base.
pub proof fn lemma_preview_items_of_project(s: StoreV, i: int, key: Seq<u8>)
    requires
        0 <= i < s.projects.len(),
    ensures
        s.preview_at(i, key) matches Some(pv) ==>
            forall|k: int| 0 <= k < pv.items.len() ==> exists|j: int| 0 <= j < s.entries.len()
                && (#[trigger] s.entries[j]).id == (#[trigger] pv.items[k]).entry_id && s.entries[j].project_id == s.projects[i].id
                && s.entries[j].name == pv.items[k].entry_name
                && pv.items[k].source_environment == s.source_env(s.projects[i].id, s.projects[i].base, s.entries[j].id)
                && s.stored_text(s.entries[j].id, pv.items[k].source_environment) is Some,
{
    let p = s.projects[i];
    let es = s.sorted_entries(p.id);
    lemma_sorted_entries_own(s, p.id);
    lemma_preview_items_own(s, key, p.id, p.base, es);
}

/// Each entry a project's preview skips is an entry of that project with no
/// value for its override environment or else the base.
pub proof fn lemma_preview_skipped_of_project(s: StoreV, i: int, key: Seq<u8>)
    requires
        0 <= i < s.projects.len(),
    ensures
        s.preview_at(i, key) matches Some(pv) ==>
            forall|k: int| 0 <= k < pv.skipped.len() ==> exists|j: int| 0 <= j < s.entries.len()
                && (#[trigger] s.entries[j]).name == (#[trigger] pv.skipped[k]).0 && s.entries[j].project_id == s.projects[i].id
                && pv.skipped[k].1 == s.source_env(s.projects[i].id, s.projects[i].base, s.entries[j].id)
                && s.stored_text(s.entries[j].id, pv.skipped[k].1) is None,
{
    let p = s.projects[i];
    let es = s.sorted_entries(p.id);
    lemma_sorted_entries_own(s, p.id);
    lemma_preview_skipped_own(s, p.id, p.base, es);
}

/// Each entry of a project appears in its preview: as an item when its
/// override environment, or else the base, holds a value, and as skipped
/// otherwise.
pub proof fn lemma_preview_covers_project(s: StoreV, i: int, key: Seq<u8>)
    requires
        0 <= i < s.projects.len(),
    ensures
        s.preview_at(i, key) matches Some(pv) ==>
            forall|j: int| 0 <= j < s.entries.len() && (#[trigger] s.entries[j]).project_id == s.projects[i].id ==> {
                let env = s.source_env(s.projects[i].id, s.projects[i].base, s.entries[j].id);
                if s.stored_text(s.entries[j].id, env) is Some {
                    exists|k: int| 0 <= k < pv.items.len() && (#[trigger] pv.items[k]).entry_id == s.entries[j].id
                } else {
                    exists|k: int| 0 <= k < pv.skipped.len() && (#[trigger] pv.skipped[k]) == (s.entries[j].name, env)
                }
            },
{
    let p = s.projects[i];
    let es = s.sorted_entries(p.id);
    lemma_sorted_entries_own(s, p.id);
    lemma_preview_covers(s, key, p.id, p.base, es);
    if let Some(pv) = s.preview_at(i, key) {
        assert(s.preview_items(key, p.id, p.base, es) == Some(pv.items));
        assert(pv.skipped == s.preview_skipped(p.id, p.base, es));
    }
}

} // verus!
