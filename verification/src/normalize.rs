//! The rules that turn user input into stored names, labels and values, and
//! the quoting of values in `NAME=value` lines.

use vstd::prelude::*;
use crate::error::{AppError, is_validation};
use crate::model::EntryValueInput;
use crate::order::{lex_lt, lemma_lex_total, lemma_lex_transitive, lemma_lex_irreflexive, lemma_lex_asymmetric, str_lt};
use crate::text::{
    ascii_lower, ascii_upper, is_ascii_alnum, is_ascii_digit, is_ascii_lower, is_ascii_upper,
    strip, trim, char_is_ascii_alnum, char_to_ascii_lower, char_to_ascii_upper, chars_of,
    string_from_chars, string_from_range, strip_bounds, trimmed,
};

verus! {

/// The views of a sequence of strings.
pub open spec fn strings_view(s: Seq<String>) -> Seq<Seq<char>> {
    s.map_values(|x: String| x@)
}

// ---------------------------------------------------------------- project names

/// Message of a blank project name.
pub open spec fn empty_project_name_message() -> Seq<char> {
    "project name cannot be empty"@
}

/// A project name is stored trimmed and must not be blank.
pub fn normalize_project_name(value: &str) -> (res: Result<String, AppError>)
    ensures
        match res {
            Ok(name) => trim(value@).len() > 0 && name@ == trim(value@),
            Err(e) => trim(value@).len() == 0 && is_validation(e, empty_project_name_message()),
        },
{
    let t = trimmed(value);
    if t.as_str().is_empty() {
        return Err(AppError::Validation(String::from_str("project name cannot be empty")));
    }
    Ok(t)
}

// ---------------------------------------------------------------- entry names

/// How an entry name keeps a character: lower-case ASCII letters are raised,
/// upper-case letters and digits stay, anything else becomes `_`.
pub open spec fn entry_name_char(c: char) -> char {
    if is_ascii_lower(c) {
        ascii_upper(c)
    } else if is_ascii_upper(c) || is_ascii_digit(c) {
        c
    } else {
        '_'
    }
}

/// The stored form of an entry name: trimmed, each character mapped by
/// [`entry_name_char`], then underscores removed from both ends.
pub open spec fn entry_name_of(s: Seq<char>) -> Seq<char> {
    strip(trim(s).map_values(|c: char| entry_name_char(c)), true)
}

pub open spec fn empty_entry_name_message() -> Seq<char> {
    "entry names must contain letters or numbers"@
}

fn map_entry_name_char(c: char) -> (r: char)
    ensures
        r == entry_name_char(c),
{
    if 'a' <= c && c <= 'z' {
        char_to_ascii_upper(c)
    } else if ('A' <= c && c <= 'Z') || ('0' <= c && c <= '9') {
        c
    } else {
        '_'
    }
}

/// An entry name is stored as an upper-case identifier; one with no letter
/// or digit is refused.
pub fn normalize_entry_name(value: &str) -> (res: Result<String, AppError>)
    ensures
        match res {
            Ok(name) => entry_name_of(value@).len() > 0 && name@ == entry_name_of(value@),
            Err(e) => entry_name_of(value@).len() == 0 && is_validation(e, empty_entry_name_message()),
        },
{
    let cs = chars_of(value);
    let (a, b) = strip_bounds(&cs, false);
    let ghost t = cs@.subrange(a as int, b as int);
    let mut mapped: Vec<char> = Vec::new();
    let mut i = a;
    while i < b
        invariant
            a <= i <= b <= cs@.len(),
            t == cs@.subrange(a as int, b as int),
            mapped@ =~= t.take(i - a).map_values(|c: char| entry_name_char(c)),
        decreases b - i,
    {
        let c = map_entry_name_char(cs[i]);
        mapped.push(c);
        assert(t.take(i + 1 - a) =~= t.take(i - a).push(cs@[i as int]));
        i = i + 1;
    }
    assert(t.take(b - a) =~= t);
    let (c, d) = strip_bounds(&mapped, true);
    if c == d {
        return Err(AppError::Validation(String::from_str("entry names must contain letters or numbers")));
    }
    Ok(string_from_range(&mapped, c, d))
}

// ---------------------------------------------------------------- environment labels

/// Lower-cased, with a space turned into `-`.
pub open spec fn env_char(c: char) -> char {
    if ascii_lower(c) == ' ' {
        '-'
    } else {
        ascii_lower(c)
    }
}

/// Characters an environment label keeps.
pub open spec fn env_keep(c: char) -> bool {
    is_ascii_alnum(c) || c == '-' || c == '_'
}

/// The characters of `s` that [`env_keep`] keeps, in order.
pub open spec fn keep_env(s: Seq<char>) -> Seq<char>
    decreases s.len(),
{
    if s.len() == 0 {
        Seq::empty()
    } else if env_keep(s.last()) {
        keep_env(s.drop_last()).push(s.last())
    } else {
        keep_env(s.drop_last())
    }
}

/// The stored form of an environment label: trimmed, lower-cased, spaces
/// turned into `-`, and only ASCII letters, digits, `-` and `_` kept.
pub open spec fn env_label_of(s: Seq<char>) -> Seq<char> {
    keep_env(trim(s).map_values(|c: char| env_char(c)))
}

pub open spec fn empty_env_label_message() -> Seq<char> {
    "environment labels cannot be empty"@
}

/// Normalises an environment label; an empty result is refused.
pub fn normalize_environment_name(value: &str) -> (res: Result<String, AppError>)
    ensures
        match res {
            Ok(label) => env_label_of(value@).len() > 0 && label@ == env_label_of(value@),
            Err(e) => env_label_of(value@).len() == 0 && is_validation(e, empty_env_label_message()),
        },
{
    let cs = chars_of(value);
    let (a, b) = strip_bounds(&cs, false);
    let ghost t = cs@.subrange(a as int, b as int);
    let ghost m = t.map_values(|c: char| env_char(c));
    let mut out: Vec<char> = Vec::new();
    let mut i = a;
    while i < b
        invariant
            a <= i <= b <= cs@.len(),
            t == cs@.subrange(a as int, b as int),
            m == t.map_values(|c: char| env_char(c)),
            out@ == keep_env(m.take(i - a)),
        decreases b - i,
    {
        let l = char_to_ascii_lower(cs[i]);
        let c = if l == ' ' { '-' } else { l };
        assert(c == m[i - a]);
        assert(m.take(i + 1 - a).drop_last() =~= m.take(i - a));
        if char_is_ascii_alnum(c) || c == '-' || c == '_' {
            out.push(c);
        }
        i = i + 1;
    }
    assert(m.take(b - a) =~= m);
    if out.len() == 0 {
        return Err(AppError::Validation(String::from_str("environment labels cannot be empty")));
    }
    Ok(string_from_chars(out.as_slice()))
}

// ---------------------------------------------------------------- supported environments

/// The first occurrence of each label, in order.
pub open spec fn dedup(s: Seq<Seq<char>>) -> Seq<Seq<char>>
    decreases s.len(),
{
    if s.len() == 0 {
        Seq::empty()
    } else if dedup(s.drop_last()).contains(s.last()) {
        dedup(s.drop_last())
    } else {
        dedup(s.drop_last()).push(s.last())
    }
}

/// The labels of the given inputs.
pub open spec fn env_labels(values: Seq<String>) -> Seq<Seq<char>> {
    values.map_values(|v: String| env_label_of(v@))
}

/// Whether some input has an empty label.
pub open spec fn has_empty_label(values: Seq<String>) -> bool {
    exists|i: int| 0 <= i < values.len() && env_label_of(#[trigger] values[i]@).len() == 0
}

pub open spec fn no_environment_message() -> Seq<char> {
    "projects must define at least one environment"@
}

/// Whether `v` holds a string whose view is `s@`.
pub fn contains_string(v: &Vec<String>, s: &String) -> (res: bool)
    ensures
        res == strings_view(v@).contains(s@),
{
    let mut i: usize = 0;
    while i < v.len()
        invariant
            i <= v@.len(),
            forall|j: int| 0 <= j < i ==> v@[j]@ != s@,
        decreases v@.len() - i,
    {
        if v[i] == *s {
            assert(strings_view(v@)[i as int] == s@);
            return true;
        }
        i = i + 1;
    }
    assert forall|j: int| 0 <= j < strings_view(v@).len() implies strings_view(v@)[j] != s@ by {}
    false
}

/// Normalises each label, keeps the first occurrence of each, and refuses
/// an empty list. The labels seen so far are looked up in the list being
/// built rather than in a `BTreeSet`: vstd specifies `BTreeSet` only for
/// keys known to obey `Ord`'s laws, and `String` is not among them.
pub fn normalize_supported_environments(values: Vec<String>) -> (res: Result<Vec<String>, AppError>)
    ensures
        match res {
            Ok(envs) => {
                &&& !has_empty_label(values@)
                &&& values@.len() > 0
                &&& strings_view(envs@) == dedup(env_labels(values@))
            },
            Err(e) => {
                ||| has_empty_label(values@) && is_validation(e, empty_env_label_message())
                ||| !has_empty_label(values@) && values@.len() == 0 && is_validation(e, no_environment_message())
            },
        },
{
    let mut normalized: Vec<String> = Vec::new();
    let mut i: usize = 0;
    while i < values.len()
        invariant
            i <= values@.len(),
            forall|j: int| 0 <= j < i ==> env_label_of(#[trigger] values@[j]@).len() > 0,
            strings_view(normalized@) =~= dedup(env_labels(values@.take(i as int))),
        decreases values@.len() - i,
    {
        let environment = match normalize_environment_name(values[i].as_str()) {
            Ok(e) => e,
            Err(e) => {
                assert(env_label_of(values@[i as int]@).len() == 0);
                return Err(e);
            },
        };
        assert(env_labels(values@.take(i + 1)).drop_last() =~= env_labels(values@.take(i as int)));
        assert(env_labels(values@.take(i + 1)).last() == environment@);
        if !contains_string(&normalized, &environment) {
            normalized.push(environment);
            assert(strings_view(normalized@) =~= strings_view(normalized@).drop_last().push(environment@));
        }
        i = i + 1;
    }
    assert(values@.take(values@.len() as int) =~= values@);
    if normalized.len() == 0 {
        assert(values@.len() == 0) by {
            if values@.len() > 0 {
                lemma_dedup_nonempty(env_labels(values@));
            }
        }
        return Err(AppError::Validation(String::from_str("projects must define at least one environment")));
    }
    Ok(normalized)
}

pub proof fn lemma_dedup_nonempty(s: Seq<Seq<char>>)
    requires
        s.len() > 0,
    ensures
        dedup(s).len() > 0,
    decreases s.len(),
{
    if s.len() > 1 {
        lemma_dedup_nonempty(s.drop_last());
    }
}

// ---------------------------------------------------------------- entry values

/// Message of an environment a project does not support.
pub open spec fn unsupported_env_message(env: Seq<char>) -> Seq<char> {
    "environment `"@ + env + "` is not supported by this project"@
}

/// Why one value input is refused, if it is.
pub open spec fn value_fault(v: EntryValueInput, allowed: Seq<Seq<char>>) -> Option<Seq<char>> {
    let env = env_label_of(v.environment@);
    if env.len() == 0 {
        Some(empty_env_label_message())
    } else if !allowed.contains(env) {
        Some(unsupported_env_message(env))
    } else {
        None
    }
}

/// The refusal of the first refused input, if any.
pub open spec fn first_value_fault(values: Seq<EntryValueInput>, allowed: Seq<Seq<char>>) -> Option<Seq<char>>
    decreases values.len(),
{
    if values.len() == 0 {
        None
    } else {
        match first_value_fault(values.drop_last(), allowed) {
            Some(m) => Some(m),
            None => value_fault(values.last(), allowed),
        }
    }
}

/// The values that remain after applying the inputs in order: a present
/// input sets its environment's value, an absent one removes it.
pub open spec fn fold_values(values: Seq<EntryValueInput>) -> Map<Seq<char>, Seq<char>>
    decreases values.len(),
{
    if values.len() == 0 {
        Map::empty()
    } else {
        let m = fold_values(values.drop_last());
        let v = values.last();
        if v.present {
            m.insert(env_label_of(v.environment@), v.value@)
        } else {
            m.remove(env_label_of(v.environment@))
        }
    }
}

/// The views of a list of pairs of strings.
pub open spec fn pairs_view(s: Seq<(String, String)>) -> Seq<(Seq<char>, Seq<char>)> {
    s.map_values(|p: (String, String)| (p.0@, p.1@))
}

/// Keys strictly increase along the list.
pub open spec fn keys_increasing(s: Seq<(Seq<char>, Seq<char>)>) -> bool {
    forall|i: int, j: int| 0 <= i < j < s.len() ==> lex_lt(#[trigger] s[i].0, #[trigger] s[j].0)
}

/// The list holds exactly the entries of `m`.
pub open spec fn lists_map(s: Seq<(Seq<char>, Seq<char>)>, m: Map<Seq<char>, Seq<char>>) -> bool {
    &&& forall|i: int| 0 <= i < s.len() ==> m.contains_key(#[trigger] s[i].0) && m[s[i].0] == s[i].1
    &&& forall|k: Seq<char>| #[trigger] m.contains_key(k) ==> exists|i: int| 0 <= i < s.len() && s[i].0 == k
}

/// The position at which `key` belongs in a list sorted by key, and whether
/// it is there already.
fn find_key(list: &Vec<(String, String)>, key: &String) -> (r: (usize, bool))
    requires
        keys_increasing(pairs_view(list@)),
    ensures
        r.0 <= list@.len(),
        forall|i: int| 0 <= i < r.0 ==> lex_lt(#[trigger] list@[i].0@, key@),
        r.1 ==> r.0 < list@.len() && list@[r.0 as int].0@ == key@,
        !r.1 ==> forall|i: int| r.0 <= i < list@.len() ==> lex_lt(key@, #[trigger] list@[i].0@),
{
    let mut i: usize = 0;
    while i < list.len() && str_lt(list[i].0.as_str(), key.as_str())
        invariant
            i <= list@.len(),
            forall|j: int| 0 <= j < i ==> lex_lt(#[trigger] list@[j].0@, key@),
        decreases list@.len() - i,
    {
        i = i + 1;
    }
    if i < list.len() && list[i].0 == *key {
        return (i, true);
    }
    proof {
        if i < list@.len() {
            lemma_lex_total(list@[i as int].0@, key@);
            assert forall|j: int| i <= j < list@.len() implies lex_lt(key@, #[trigger] list@[j].0@) by {
                if j > i {
                    assert(lex_lt(pairs_view(list@)[i as int].0, pairs_view(list@)[j].0));
                    lemma_lex_transitive(key@, list@[i as int].0@, list@[j].0@);
                }
            }
        }
    }
    (i, false)
}

/// The values are kept in a list sorted by environment rather than in a
/// `BTreeMap`: vstd specifies `BTreeMap` only for keys known to obey `Ord`'s
/// laws, and `String` is not among them.
///
/// Checks each value's environment against the project's and keeps the last
/// present value of each environment, ordered by environment.
pub fn normalize_entry_values(values: Vec<EntryValueInput>, project_environments: &[String]) -> (res: Result<Vec<(String, String)>, AppError>)
    ensures
        match first_value_fault(values@, strings_view(project_environments@)) {
            Some(msg) => res matches Err(e) && is_validation(e, msg),
            None => res matches Ok(out) && keys_increasing(pairs_view(out@)) && lists_map(pairs_view(out@), fold_values(values@)),
        },
{
    let ghost allowed = strings_view(project_environments@);
    let mut out: Vec<(String, String)> = Vec::new();
    let mut i: usize = 0;
    while i < values.len()
        invariant
            i <= values@.len(),
            allowed == strings_view(project_environments@),
            first_value_fault(values@.take(i as int), allowed) is None,
            keys_increasing(pairs_view(out@)),
            lists_map(pairs_view(out@), fold_values(values@.take(i as int))),
        decreases values@.len() - i,
    {
        let ghost prefix = values@.take(i as int);
        let ghost next = values@.take(i + 1);
        assert(next.drop_last() =~= prefix);
        let environment = match normalize_environment_name(values[i].environment.as_str()) {
            Ok(e) => e,
            Err(e) => {
                proof { lemma_fault_prefix(values@, i as int + 1, allowed); }
                return Err(e);
            },
        };
        let mut supported = false;
        let mut k: usize = 0;
        while k < project_environments.len()
            invariant
                k <= project_environments@.len(),
                allowed == strings_view(project_environments@),
                supported == exists|j: int| 0 <= j < k && project_environments@[j]@ == environment@,
            decreases project_environments@.len() - k,
        {
            if project_environments[k] == environment {
                supported = true;
            }
            k = k + 1;
        }
        proof {
            if supported {
                let j = choose|j: int| 0 <= j < k && project_environments@[j]@ == environment@;
                assert(allowed[j] == environment@);
            }
            if allowed.contains(environment@) {
                let j = choose|j: int| 0 <= j < allowed.len() && allowed[j] == environment@;
                assert(project_environments@[j]@ == environment@);
            }
        }
        if !supported {
            proof { lemma_fault_prefix(values@, i as int + 1, allowed); }
            let msg = String::from_str("environment `").concat(environment.as_str()).concat("` is not supported by this project");
            return Err(AppError::Validation(msg));
        }
        let ghost m0 = fold_values(prefix);
        let ghost before = pairs_view(out@);
        let ghost key = environment@;
        let (pos, found) = find_key(&out, &environment);
        assert(forall|j: int| 0 <= j < pos ==> lex_lt(#[trigger] before[j].0, key));
        assert(found ==> before[pos as int].0 == key);
        assert(!found ==> forall|j: int| pos <= j < before.len() ==> lex_lt(key, #[trigger] before[j].0));
        assert(values@[i as int] == next.last());
        if values[i].present {
            let value = values[i].value.clone();
            let ghost val = value@;
            if found {
                out.set(pos, (environment, value));
                assert(pairs_view(out@) =~= before.update(pos as int, (key, val)));
            } else {
                out.insert(pos, (environment, value));
                assert(pairs_view(out@) =~= before.insert(pos as int, (key, val)));
            }
            proof {
                lemma_put_sorted(before, pairs_view(out@), pos as int, found, key, val, m0);
            }
        } else {
            if found {
                out.remove(pos);
                assert(pairs_view(out@) =~= before.remove(pos as int));
            }
            proof {
                lemma_remove_sorted(before, pairs_view(out@), pos as int, found, key, m0);
            }
        }
        i = i + 1;
    }
    assert(values@.take(values@.len() as int) =~= values@);
    Ok(out)
}

proof fn lemma_put_sorted(
    before: Seq<(Seq<char>, Seq<char>)>,
    after: Seq<(Seq<char>, Seq<char>)>,
    pos: int,
    found: bool,
    key: Seq<char>,
    val: Seq<char>,
    m0: Map<Seq<char>, Seq<char>>,
)
    requires
        keys_increasing(before),
        lists_map(before, m0),
        0 <= pos <= before.len(),
        forall|j: int| 0 <= j < pos ==> lex_lt(#[trigger] before[j].0, key),
        found ==> pos < before.len() && before[pos].0 == key,
        !found ==> forall|j: int| pos <= j < before.len() ==> lex_lt(key, #[trigger] before[j].0),
        found ==> after == before.update(pos, (key, val)),
        !found ==> after == before.insert(pos, (key, val)),
    ensures
        keys_increasing(after),
        lists_map(after, m0.insert(key, val)),
{
    let m1 = m0.insert(key, val);
    if found {
        assert forall|i: int, j: int| 0 <= i < j < after.len() implies lex_lt(#[trigger] after[i].0, #[trigger] after[j].0) by {
            assert(lex_lt(before[i].0, before[j].0));
        }
        assert forall|i: int| 0 <= i < after.len() implies m1.contains_key(#[trigger] after[i].0) && m1[after[i].0] == after[i].1 by {
            if i != pos {
                assert(lex_lt(before[i].0, before[pos].0) || lex_lt(before[pos].0, before[i].0));
                lemma_lex_irreflexive(key);
            }
        }
        assert forall|k: Seq<char>| #[trigger] m1.contains_key(k) implies exists|i: int| 0 <= i < after.len() && after[i].0 == k by {
            if k == key {
                assert(after[pos].0 == k);
            } else {
                let i = choose|i: int| 0 <= i < before.len() && before[i].0 == k;
                assert(after[i].0 == k);
            }
        }
    } else {
        assert forall|i: int, j: int| 0 <= i < j < after.len() implies lex_lt(#[trigger] after[i].0, #[trigger] after[j].0) by {
            if j < pos {
                assert(lex_lt(before[i].0, before[j].0));
            } else if j == pos {
            } else if i < pos {
                lemma_lex_transitive(before[i].0, key, before[j - 1].0);
            } else if i == pos {
            } else {
                assert(lex_lt(before[i - 1].0, before[j - 1].0));
            }
        }
        assert forall|i: int| 0 <= i < after.len() implies m1.contains_key(#[trigger] after[i].0) && m1[after[i].0] == after[i].1 by {
            if i < pos {
                lemma_lex_irreflexive(key);
                assert(before[i].0 != key);
            } else if i > pos {
                lemma_lex_irreflexive(key);
                assert(before[i - 1].0 != key);
            }
        }
        assert forall|k: Seq<char>| #[trigger] m1.contains_key(k) implies exists|i: int| 0 <= i < after.len() && after[i].0 == k by {
            if k == key {
                assert(after[pos].0 == k);
            } else {
                let i = choose|i: int| 0 <= i < before.len() && before[i].0 == k;
                if i < pos {
                    assert(after[i].0 == k);
                } else {
                    assert(after[i + 1].0 == k);
                }
            }
        }
    }
}

proof fn lemma_remove_sorted(
    before: Seq<(Seq<char>, Seq<char>)>,
    after: Seq<(Seq<char>, Seq<char>)>,
    pos: int,
    found: bool,
    key: Seq<char>,
    m0: Map<Seq<char>, Seq<char>>,
)
    requires
        keys_increasing(before),
        lists_map(before, m0),
        0 <= pos <= before.len(),
        forall|j: int| 0 <= j < pos ==> lex_lt(#[trigger] before[j].0, key),
        found ==> pos < before.len() && before[pos].0 == key,
        !found ==> forall|j: int| pos <= j < before.len() ==> lex_lt(key, #[trigger] before[j].0),
        found ==> after == before.remove(pos),
        !found ==> after == before,
    ensures
        keys_increasing(after),
        lists_map(after, m0.remove(key)),
{
    let m1 = m0.remove(key);
    lemma_lex_irreflexive(key);
    if found {
        assert forall|i: int, j: int| 0 <= i < j < after.len() implies lex_lt(#[trigger] after[i].0, #[trigger] after[j].0) by {
            if j < pos {
                assert(lex_lt(before[i].0, before[j].0));
            } else if i < pos {
                assert(lex_lt(before[i].0, before[j + 1].0));
            } else {
                assert(lex_lt(before[i + 1].0, before[j + 1].0));
            }
        }
        assert forall|i: int| 0 <= i < after.len() implies m1.contains_key(#[trigger] after[i].0) && m1[after[i].0] == after[i].1 by {
            if i < pos {
                assert(lex_lt(before[i].0, before[pos].0));
            } else {
                assert(lex_lt(before[pos].0, before[i + 1].0));
            }
        }
        assert forall|k: Seq<char>| #[trigger] m1.contains_key(k) implies exists|i: int| 0 <= i < after.len() && after[i].0 == k by {
            let i = choose|i: int| 0 <= i < before.len() && before[i].0 == k;
            if i < pos {
                assert(after[i].0 == k);
            } else {
                assert(after[i - 1].0 == k);
            }
        }
    } else {
        assert forall|i: int| 0 <= i < after.len() implies m1.contains_key(#[trigger] after[i].0) && m1[after[i].0] == after[i].1 by {
            if i < pos {
                assert(lex_lt(before[i].0, key));
            } else {
                assert(lex_lt(key, before[i].0));
            }
        }
        assert forall|k: Seq<char>| #[trigger] m1.contains_key(k) implies exists|i: int| 0 <= i < after.len() && after[i].0 == k by {
            assert(m0.contains_key(k));
        }
    }
}

proof fn lemma_fault_prefix(values: Seq<EntryValueInput>, n: int, allowed: Seq<Seq<char>>)
    requires
        0 < n <= values.len(),
        first_value_fault(values.take(n - 1), allowed) is None,
        value_fault(values[n - 1], allowed) is Some,
    ensures
        first_value_fault(values, allowed) == value_fault(values[n - 1], allowed),
    decreases values.len(),
{
    assert(values.take(n).drop_last() =~= values.take(n - 1));
    if n < values.len() {
        assert(values.drop_last().take(n - 1) =~= values.take(n - 1));
        lemma_fault_prefix(values.drop_last(), n, allowed);
        assert(values.drop_last().take(n - 1) =~= values.take(n - 1));
        assert(values.drop_last()[n - 1] == values[n - 1]);
    } else {
        assert(values.take(n) =~= values);
    }
}

// ---------------------------------------------------------------- optional text

/// Optional free text is stored trimmed; blank text is dropped.
pub open spec fn optional_text_of(value: Option<Seq<char>>) -> Option<Seq<char>> {
    match value {
        Some(v) => if trim(v).len() == 0 { None } else { Some(trim(v)) },
        None => None,
    }
}

/// The views of an optional string.
pub open spec fn opt_view(value: Option<String>) -> Option<Seq<char>> {
    match value {
        Some(v) => Some(v@),
        None => None,
    }
}

pub fn normalize_optional_text(value: Option<String>) -> (res: Option<String>)
    ensures
        opt_view(res) == optional_text_of(opt_view(value)),
{
    match value {
        Some(v) => {
            let t = trimmed(v.as_str());
            if t.as_str().is_empty() {
                None
            } else {
                Some(t)
            }
        },
        None => None,
    }
}

// ---------------------------------------------------------------- serialised values

/// Characters a value may hold and still be written without quotes.
pub open spec fn bare_value_char(c: char) -> bool {
    is_ascii_alnum(c) || c == '_' || c == '-' || c == '.' || c == '/' || c == ':' || c == '@'
}

/// How a quoted value writes one character.
pub open spec fn escape_char(c: char) -> Seq<char> {
    if c == '\\' {
        seq!['\\', '\\']
    } else if c == '\n' {
        seq!['\\', 'n']
    } else if c == '\r' {
        seq!['\\', 'r']
    } else if c == '"' {
        seq!['\\', '"']
    } else {
        seq![c]
    }
}

/// The escaped characters of a quoted value.
pub open spec fn escape_chars(s: Seq<char>) -> Seq<char>
    decreases s.len(),
{
    if s.len() == 0 {
        Seq::empty()
    } else {
        escape_chars(s.drop_last()) + escape_char(s.last())
    }
}

/// How a value is written after `NAME=`: `""` when empty, as it is when
/// every character is a bare one, else quoted with `\`, newline, carriage
/// return and `"` escaped.
pub open spec fn serialized_value(s: Seq<char>) -> Seq<char> {
    if s.len() == 0 {
        seq!['"', '"']
    } else if forall|i: int| 0 <= i < s.len() ==> bare_value_char(#[trigger] s[i]) {
        s
    } else {
        seq!['"'] + escape_chars(s) + seq!['"']
    }
}

fn is_bare_value_char(c: char) -> (res: bool)
    ensures
        res == bare_value_char(c),
{
    char_is_ascii_alnum(c) || c == '_' || c == '-' || c == '.' || c == '/' || c == ':' || c == '@'
}

pub fn serialize_env_value(value: &str) -> (res: String)
    ensures
        res@ == serialized_value(value@),
{
    let cs = chars_of(value);
    if cs.len() == 0 {
        let q: Vec<char> = vec!['"', '"'];
        let r = string_from_chars(q.as_slice());
        assert(q@ =~= seq!['"', '"']);
        return r;
    }
    let mut bare = true;
    let mut i: usize = 0;
    while i < cs.len()
        invariant
            i <= cs@.len(),
            cs@ == value@,
            bare == forall|j: int| 0 <= j < i ==> bare_value_char(#[trigger] cs@[j]),
        decreases cs@.len() - i,
    {
        if !is_bare_value_char(cs[i]) {
            bare = false;
        }
        i = i + 1;
    }
    if bare {
        return string_from_chars(cs.as_slice());
    }
    let mut out: Vec<char> = Vec::new();
    out.push('"');
    let mut k: usize = 0;
    while k < cs.len()
        invariant
            k <= cs@.len(),
            cs@ == value@,
            out@ =~= seq!['"'] + escape_chars(cs@.take(k as int)),
        decreases cs@.len() - k,
    {
        let c = cs[k];
        assert(cs@.take(k + 1).drop_last() =~= cs@.take(k as int));
        if c == '\\' {
            out.push('\\');
            out.push('\\');
        } else if c == '\n' {
            out.push('\\');
            out.push('n');
        } else if c == '\r' {
            out.push('\\');
            out.push('r');
        } else if c == '"' {
            out.push('\\');
            out.push('"');
        } else {
            out.push(c);
        }
        k = k + 1;
    }
    out.push('"');
    assert(cs@.take(cs@.len() as int) =~= cs@);
    string_from_chars(out.as_slice())
}

} // verus!
