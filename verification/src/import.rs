//! Importing `NAME=value` pairs into one environment of a project: a name
//! that an entry of the project already has updates that entry's value; any
//! other name creates an entry. Names that normalise to nothing are skipped.

use vstd::prelude::*;
use crate::crypto::{encrypt_fault, encrypt_value, is_stored_form};
use crate::error::AppError;
use crate::model::{ImportEntriesInput, ImportEntryItem};
use crate::normalize::{contains_string, empty_env_label_message, entry_name_of, env_label_of, normalize_entry_name, normalize_environment_name, unsupported_env_message};
use crate::order::str_eq;
use crate::seqs::{first_index, lemma_first_index_prefix, lemma_first_index_take};
use crate::store::{new_entity_id, project_not_found, raises, EntryRow, EntryV, Fault, Store, StoreV, ValueRow, ValueV};
use crate::preview::value_is;
use crate::laws::lemma_with_value_keeps_other_envs;

verus! {

pub open spec fn entry_named(pid: Seq<char>, name: Seq<char>) -> spec_fn(EntryV) -> bool {
    |e: EntryV| e.project_id == pid && e.name == name
}

impl StoreV {
    /// The value of `eid` for `env` set to `text`, replacing an existing one.
    pub open spec fn with_value(self, eid: Seq<char>, env: Seq<char>, text: Seq<char>) -> StoreV {
        if first_index(self.values, value_is(eid, env)) >= 0 {
            StoreV {
                values: self.values.map_values(|v: ValueV| if v.entry_id == eid && v.environment == env {
                    ValueV { encrypted: text, ..v }
                } else {
                    v
                }),
                ..self
            }
        } else {
            StoreV { values: self.values.push(ValueV { entry_id: eid, environment: env, encrypted: text }), ..self }
        }
    }
}

/// The values of the items that are not skipped, in order.
pub open spec fn accepted_values(items: Seq<ImportEntryItem>) -> Seq<Seq<char>>
    decreases items.len(),
{
    if items.len() == 0 {
        Seq::empty()
    } else if entry_name_of(items.last().name@).len() > 0 {
        accepted_values(items.drop_last()).push(items.last().value@)
    } else {
        accepted_values(items.drop_last())
    }
}

/// Applying the items in order to `s0`, the `c`-th created entry taking the
/// id `ids[c]` and the `k`-th stored value the text `texts[k]`: the store,
/// and how many entries were created and updated.
pub open spec fn import_fold(
    s0: StoreV,
    pid: Seq<char>,
    env: Seq<char>,
    items: Seq<ImportEntryItem>,
    key: Seq<u8>,
    ids: Seq<Seq<char>>,
    texts: Seq<Seq<char>>,
) -> Result<(StoreV, nat, nat), Fault>
    decreases items.len(),
{
    if items.len() == 0 {
        Ok((s0, 0, 0))
    } else {
        match import_fold(s0, pid, env, items.drop_last(), key, ids, texts) {
            Err(f) => Err(f),
            Ok((s, c, u)) => {
                let item = items.last();
                let name = entry_name_of(item.name@);
                if name.len() == 0 {
                    Ok((s, c, u))
                } else {
                    let k = first_index(s.entries, entry_named(pid, name));
                    let text = texts[(c + u) as int];
                    if k >= 0 {
                        match encrypt_fault(key, item.value@) {
                            Some(m) => Err(Fault::Crypto(m)),
                            None => Ok((s.with_value(s.entries[k].id, env, text), c, u + 1)),
                        }
                    } else {
                        let id = ids[c as int];
                        if exists|j: int| 0 <= j < s.entries.len() && #[trigger] s.entries[j].id == id {
                            Err(Fault::Sql("UNIQUE constraint failed: entries.id"@))
                        } else {
                            match encrypt_fault(key, item.value@) {
                                Some(m) => Err(Fault::Crypto(m)),
                                None => Ok((
                                    StoreV {
                                        entries: s.entries.push(EntryV { id, project_id: pid, name, category: None, description: None }),
                                        values: s.values.push(ValueV { entry_id: id, environment: env, encrypted: text }),
                                        ..s
                                    },
                                    c + 1,
                                    u,
                                )),
                            }
                        }
                    }
                }
            },
        }
    }
}

impl StoreV {
    /// `import_entries`, with the new entries' ids and the stored texts given.
    pub open spec fn import_entries(
        self,
        pid: Seq<char>,
        environment: Seq<char>,
        items: Seq<ImportEntryItem>,
        key: Seq<u8>,
        ids: Seq<Seq<char>>,
        texts: Seq<Seq<char>>,
    ) -> Result<(StoreV, nat, nat), Fault> {
        let env = env_label_of(environment);
        let i = self.project_index(pid);
        if env.len() == 0 {
            Err(Fault::Validation(empty_env_label_message()))
        } else if i < 0 {
            Err(Fault::NotFound(project_not_found()))
        } else if !self.projects[i].supported.contains(env) {
            Err(Fault::Validation(unsupported_env_message(env)))
        } else {
            import_fold(self, pid, env, items, key, ids, texts)
        }
    }
}

proof fn lemma_fold_err_prefix(
    s0: StoreV,
    pid: Seq<char>,
    env: Seq<char>,
    items: Seq<ImportEntryItem>,
    key: Seq<u8>,
    ids: Seq<Seq<char>>,
    texts: Seq<Seq<char>>,
    n: int,
)
    requires
        0 < n <= items.len(),
        import_fold(s0, pid, env, items.take(n), key, ids, texts) is Err,
    ensures
        import_fold(s0, pid, env, items, key, ids, texts) == import_fold(s0, pid, env, items.take(n), key, ids, texts),
    decreases items.len(),
{
    if n < items.len() {
        assert(items.drop_last().take(n) =~= items.take(n));
        lemma_fold_err_prefix(s0, pid, env, items.drop_last(), key, ids, texts, n);
    } else {
        assert(items.take(n) =~= items);
    }
}

pub proof fn lemma_fold_counts(s0: StoreV, pid: Seq<char>, env: Seq<char>, items: Seq<ImportEntryItem>, key: Seq<u8>, ids: Seq<Seq<char>>, texts: Seq<Seq<char>>)
    ensures
        import_fold(s0, pid, env, items, key, ids, texts) matches Ok((s, c, u)) ==> c + u == accepted_values(items).len(),
    decreases items.len(),
{
    if items.len() > 0 {
        lemma_fold_counts(s0, pid, env, items.drop_last(), key, ids, texts);
    }
}

/// The fold reads only the ids and texts it consumes.
proof fn lemma_fold_extend(
    s0: StoreV,
    pid: Seq<char>,
    env: Seq<char>,
    items: Seq<ImportEntryItem>,
    key: Seq<u8>,
    ids: Seq<Seq<char>>,
    texts: Seq<Seq<char>>,
    ids2: Seq<Seq<char>>,
    texts2: Seq<Seq<char>>,
)
    requires
        import_fold(s0, pid, env, items, key, ids, texts) matches Ok((s, c, u)) && c <= ids.len() && c + u <= texts.len(),
        ids.len() <= ids2.len(),
        texts.len() <= texts2.len(),
        ids2.take(ids.len() as int) == ids,
        texts2.take(texts.len() as int) == texts,
    ensures
        import_fold(s0, pid, env, items, key, ids2, texts2) == import_fold(s0, pid, env, items, key, ids, texts),
    decreases items.len(),
{
    if items.len() > 0 {
        let prev = import_fold(s0, pid, env, items.drop_last(), key, ids, texts);
        assert(prev is Ok);
        lemma_fold_extend(s0, pid, env, items.drop_last(), key, ids, texts, ids2, texts2);
        let (s, c, u) = prev->Ok_0;
        if entry_name_of(items.last().name@).len() > 0 {
            assert(c + u < texts.len());
            assert(texts2[(c + u) as int] == texts[(c + u) as int]) by {
                assert(texts2.take(texts.len() as int)[(c + u) as int] == texts2[(c + u) as int]);
            }
            if first_index(s.entries, entry_named(pid, entry_name_of(items.last().name@))) < 0 {
                assert(c < ids.len());
                assert(ids2[c as int] == ids[c as int]) by {
                    assert(ids2.take(ids.len() as int)[c as int] == ids2[c as int]);
                }
            }
        }
    }
}

/// `res` and `new` report importing `input` into `old`, the `c`-th created
/// entry having taken the id `ids[c]` and the stored values the texts
/// `texts`, each the stored form of the matching accepted value.
pub open spec fn import_outcome(
    old: StoreV,
    new: StoreV,
    input: ImportEntriesInput,
    key: Seq<u8>,
    res: Result<(usize, usize), AppError>,
    ids: Seq<Seq<char>>,
    texts: Seq<Seq<char>>,
) -> bool {
    &&& res is Ok ==> texts.len() == accepted_values(input.entries@).len()
        && forall|j: int| 0 <= j < texts.len() ==> is_stored_form(key, #[trigger] texts[j], accepted_values(input.entries@)[j])
    &&& match old.import_entries(input.project_id@, input.environment@, input.entries@, key, ids, texts) {
        Ok((s, c, u)) => res matches Ok((rc, ru)) && rc == c && ru == u && new == s,
        Err(f) => res matches Err(e) && raises(e, f) && new == old,
    }
}

/// [`import_outcome`], the created entries' ids being 36-character UUIDs.
pub open spec fn import_reported(
    old: StoreV,
    new: StoreV,
    input: ImportEntriesInput,
    key: Seq<u8>,
    res: Result<(usize, usize), AppError>,
    ids: Seq<Seq<char>>,
    texts: Seq<Seq<char>>,
) -> bool {
    &&& forall|j: int| 0 <= j < ids.len() ==> (#[trigger] ids[j]).len() == 36
    &&& import_outcome(old, new, input, key, res, ids, texts)
}

/// The views of a list of strings.
pub open spec fn ids_view(ids: Seq<String>) -> Seq<Seq<char>> {
    ids.map_values(|s: String| s@)
}

impl Store {
    /// The position of the first entry of a project with the given name.
    fn entry_named(&self, pid: &str, name: &String) -> (r: Option<usize>)
        ensures
            match r {
                Some(i) => i as int == first_index(self@.entries, entry_named(pid@, name@)) && i < self@.entries.len(),
                None => first_index(self@.entries, entry_named(pid@, name@)) < 0,
            },
    {
        let ghost es = self@.entries;
        let ghost p = entry_named(pid@, name@);
        let mut i: usize = 0;
        while i < self.entries.len()
            invariant
                i <= es.len(),
                es == self@.entries,
                p == entry_named(pid@, name@),
                first_index(es.take(i as int), p) < 0,
            decreases es.len() - i,
        {
            proof { lemma_first_index_take(es, i as int, p); }
            if str_eq(self.entries[i].project_id.as_str(), pid) && self.entries[i].name == *name {
                proof { lemma_first_index_prefix(es, i + 1, p); }
                return Some(i);
            }
            i = i + 1;
        }
        assert(es.take(es.len() as int) =~= es);
        None
    }

    /// Sets the value of an entry for an environment, replacing an existing one.
    fn put_value(&mut self, eid: &String, env: &String, text: String)
        ensures
            final(self)@ == old(self)@.with_value(eid@, env@, text@),
            forall|q: Seq<char>, e: Seq<char>| e != env@ ==> #[trigger] final(self)@.stored_text(q, e) == old(self)@.stored_text(q, e),
    {
        proof { lemma_with_value_keeps_other_envs(old(self)@, eid@, env@, text@); }
        let ghost vs = old(self)@.values;
        let ghost p = value_is(eid@, env@);
        let ghost f = |v: ValueV| if v.entry_id == eid@ && v.environment == env@ { ValueV { encrypted: text@, ..v } } else { v };
        let mut out: Vec<ValueRow> = Vec::new();
        let mut found = false;
        let mut i: usize = 0;
        while i < self.entry_values.len()
            invariant
                i <= vs.len(),
                self@ == old(self)@,
                vs == old(self)@.values,
                out@.map_values(|r: ValueRow| r@) == vs.take(i as int).map_values(f),
                found == (first_index(vs.take(i as int), p) >= 0),
                p == value_is(eid@, env@),
                f == (|v: ValueV| if v.entry_id == eid@ && v.environment == env@ { ValueV { encrypted: text@, ..v } } else { v }),
            decreases vs.len() - i,
        {
            assert(vs.take(i + 1).drop_last() =~= vs.take(i as int));
            let ghost before = out@.map_values(|r: ValueRow| r@);
            let row = if *eid == self.entry_values[i].entry_id && *env == self.entry_values[i].environment_name {
                found = true;
                ValueRow {
                    entry_id: self.entry_values[i].entry_id.clone(),
                    environment_name: self.entry_values[i].environment_name.clone(),
                    encrypted_value: text.clone(),
                }
            } else {
                self.entry_values[i].copy()
            };
            assert(row@ == f(vs[i as int]));
            out.push(row);
            assert(out@.map_values(|r: ValueRow| r@) =~= before.push(row@));
            assert(vs.take(i + 1).map_values(f) =~= vs.take(i as int).map_values(f).push(f(vs[i as int])));
            i = i + 1;
        }
        assert(vs.take(vs.len() as int) =~= vs);
        if found {
            self.entry_values = out;
        } else {
            let row = ValueRow { entry_id: eid.clone(), environment_name: env.clone(), encrypted_value: text };
            self.entry_values.push(row);
            assert(self@.values =~= vs.push(ValueV { entry_id: eid@, environment: env@, encrypted: text@ }));
        }
    }

    /// Imports items into one environment of a project, the `c`-th entry it
    /// creates taking the id `ids[c]`; the store is left unchanged when an
    /// item fails.
    pub fn import_entries_with_ids(&mut self, input: &ImportEntriesInput, key: &[u8], ids: &Vec<String>) -> (res: Result<(usize, usize), AppError>)
        requires
            ids@.len() >= input.entries@.len(),
        ensures
            exists|texts: Seq<Seq<char>>| #[trigger] import_outcome(old(self)@, final(self)@, *input, key@, res, ids_view(ids@), texts),
    {
        let ghost old_v = self@;
        let ghost pid = input.project_id@;
        let ghost items = input.entries@;
        let ghost no_ids = ids_view(ids@);
        let ghost no_texts = Seq::<Seq<char>>::empty();
        let env = match normalize_environment_name(input.environment.as_str()) {
            Ok(e) => e,
            Err(e) => {
                let r = Err(e);
                assert(import_outcome(old_v, self@, *input, key@, r, no_ids, no_texts));
                return r;
            },
        };
        let i = match self.project_position(input.project_id.as_str()) {
            None => {
                let r = Err(AppError::NotFound(String::from_str("project not found")));
                assert(import_outcome(old_v, self@, *input, key@, r, no_ids, no_texts));
                return r;
            },
            Some(i) => i,
        };
        if !contains_string(&self.projects[i].supported_environments, &env) {
            let msg = String::from_str("environment `").concat(env.as_str()).concat("` is not supported by this project");
            let r = Err(AppError::Validation(msg));
            assert(import_outcome(old_v, self@, *input, key@, r, no_ids, no_texts));
            return r;
        }
        let mut work = self.copy();
        let mut created: usize = 0;
        let mut updated: usize = 0;
        let ghost ids_g = ids_view(ids@);
        let ghost mut texts_g = Seq::<Seq<char>>::empty();
        let mut k: usize = 0;
        assert(items.take(0) =~= Seq::<ImportEntryItem>::empty());
        while k < input.entries.len()
            invariant
                k <= items.len(),
                items == input.entries@,
                pid == input.project_id@,
                self@ == old_v,
                env@ == env_label_of(input.environment@),
                forall|ids: Seq<Seq<char>>, texts: Seq<Seq<char>>| #[trigger] old_v.import_entries(pid, input.environment@, items, key@, ids, texts)
                    == import_fold(old_v, pid, env@, items, key@, ids, texts),
                import_fold(old_v, pid, env@, items.take(k as int), key@, ids_g, texts_g) == Ok::<(StoreV, nat, nat), Fault>((work@, created as nat, updated as nat)),
                ids_g == ids_view(ids@),
                ids@.len() >= items.len(),
                texts_g.len() == created + updated,
                created + updated <= k,
                texts_g.len() == accepted_values(items.take(k as int)).len(),
                forall|j: int| 0 <= j < texts_g.len() ==> is_stored_form(key@, #[trigger] texts_g[j], accepted_values(items.take(k as int))[j]),
            decreases items.len() - k,
        {
            let ghost prefix = items.take(k as int);
            let ghost next = items.take(k + 1);
            assert(next.drop_last() =~= prefix);
            assert(next.last() == items[k as int]);
            let name = match normalize_entry_name(input.entries[k].name.as_str()) {
                Ok(n) => n,
                Err(_) => {
                    k = k + 1;
                    continue;
                },
            };
            let ghost c = created as nat;
            let ghost u = updated as nat;
            match work.entry_named(input.project_id.as_str(), &name) {
                Some(j) => {
                    let eid = work.entries[j].id.clone();
                    let text = match encrypt_value(key, input.entries[k].value.as_str()) {
                        Ok(t) => t,
                        Err(e) => {
                            proof { lemma_fold_err_prefix(old_v, pid, env@, items, key@, ids_g, texts_g, k as int + 1); }
                            let r = Err(e);
                            assert(import_outcome(old_v, self@, *input, key@, r, ids_g, texts_g));
                            return r;
                        },
                    };
                    let ghost texts2 = texts_g.push(text@);
                    proof {
                        assert(ids_g.take(ids_g.len() as int) =~= ids_g);
                        assert(texts2.take(texts_g.len() as int) =~= texts_g);
                        assert(created <= ids_g.len());
                        lemma_fold_extend(old_v, pid, env@, prefix, key@, ids_g, texts_g, ids_g, texts2);
                    }
                    let ghost w0 = work@;
                    assert(w0.entries[j as int].id == eid@);
                    assert(texts2[(c + u) as int] == text@);
                    assert(name@ == entry_name_of(items[k as int].name@));
                    work.put_value(&eid, &env, text);
                    assert(import_fold(old_v, pid, env@, next, key@, ids_g, texts2) == Ok::<(StoreV, nat, nat), Fault>((work@, c, u + 1)));
                    proof {
                        texts_g = texts2;
                        assert(accepted_values(next) =~= accepted_values(prefix).push(items[k as int].value@));
                    }
                    updated = updated + 1;
                },
                None => {
                    let id = ids[created].clone();
                    let ghost ids2 = ids_g;
                    assert(ids2[c as int] == id@);
                    if work.entry_id_taken(id.as_str()) {
                        proof { lemma_fold_err_prefix(old_v, pid, env@, items, key@, ids2, texts_g, k as int + 1); }
                        let r = Err(AppError::Sql(String::from_str("UNIQUE constraint failed: entries.id")));
                        assert(import_outcome(old_v, self@, *input, key@, r, ids2, texts_g));
                        return r;
                    }
                    let text = match encrypt_value(key, input.entries[k].value.as_str()) {
                        Ok(t) => t,
                        Err(e) => {
                            proof { lemma_fold_err_prefix(old_v, pid, env@, items, key@, ids2, texts_g, k as int + 1); }
                            let r = Err(e);
                            assert(import_outcome(old_v, self@, *input, key@, r, ids2, texts_g));
                            return r;
                        },
                    };
                    let ghost texts2 = texts_g.push(text@);
                    proof {
                        assert(ids2.take(ids2.len() as int) =~= ids2);
                        assert(texts2.take(texts_g.len() as int) =~= texts_g);
                        lemma_fold_extend(old_v, pid, env@, prefix, key@, ids2, texts_g, ids2, texts2);
                    }
                    let ghost w0 = work@;
                    assert(name@ == entry_name_of(items[k as int].name@));
                    assert(texts2[(c + u) as int] == text@);
                    assert(ids2[c as int] == id@);
                    let row = EntryRow {
                        id: id.clone(),
                        project_id: input.project_id.clone(),
                        name,
                        category: None,
                        description: None,
                    };
                    let ghost rv = row@;
                    work.entries.push(row);
                    let value_row = ValueRow { entry_id: id, environment_name: env.clone(), encrypted_value: text };
                    let ghost vv = value_row@;
                    work.entry_values.push(value_row);
                    assert(work@.entries =~= w0.entries.push(rv));
                    assert(work@.values =~= w0.values.push(vv));
                    assert(import_fold(old_v, pid, env@, next, key@, ids2, texts2) == Ok::<(StoreV, nat, nat), Fault>((work@, c + 1, u)));
                    proof {
                        texts_g = texts2;
                        assert(accepted_values(next) =~= accepted_values(prefix).push(items[k as int].value@));
                    }
                    created = created + 1;
                },
            }
            k = k + 1;
        }
        assert(items.take(items.len() as int) =~= items);
        *self = work;
        let r = Ok((created, updated));
        assert(import_outcome(old_v, self@, *input, key@, r, ids_g, texts_g));
        r
    }

    /// Imports items into one environment of a project, each entry it
    /// creates taking a fresh random id; the store is left unchanged when an
    /// item fails.
    pub fn import_entries_rows(&mut self, input: ImportEntriesInput, key: &[u8]) -> (res: Result<(usize, usize), AppError>)
        ensures
            exists|ids: Seq<Seq<char>>, texts: Seq<Seq<char>>| #[trigger] import_reported(old(self)@, final(self)@, input, key@, res, ids, texts),
    {
        let mut ids: Vec<String> = Vec::new();
        let mut k: usize = 0;
        while k < input.entries.len()
            invariant
                k <= input.entries@.len(),
                ids@.len() == k,
                forall|j: int| 0 <= j < ids@.len() ==> (#[trigger] ids@[j])@.len() == 36,
            decreases input.entries@.len() - k,
        {
            ids.push(new_entity_id());
            k = k + 1;
        }
        let ghost before = self@;
        let r = self.import_entries_with_ids(&input, key, &ids);
        proof {
            let texts = choose|texts: Seq<Seq<char>>| #[trigger] import_outcome(before, self@, input, key@, r, ids_view(ids@), texts);
            assert(import_reported(before, self@, input, key@, r, ids_view(ids@), texts));
        }
        r
    }
}

} // verus!
