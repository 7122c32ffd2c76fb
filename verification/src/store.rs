//! The settings store.
use std::collections::HashMap;

use vstd::prelude::*;

use crate::model::{lemma_name_order, name_less, reads_from_file, setting_source};
use crate::model::{Outcome, SettingsModel};
use crate::order::Comparison;
use crate::parse::{compare_str, parse_object};
use crate::parse::{has_key_at, json_object, keys_ascending, lemma_members, lemma_str_order};
use crate::parse::{members_of, str_less};
use crate::path::{PathView, SettingsPath};
use crate::path_map::PathMap;
use crate::reload::{local_view, reload_setting, DeserializedSettingMap};
use crate::setting::{name_view, path_view, reads, Setting, SettingValue};

verus! {

broadcast use vstd::std_specs::hash::group_hash_axioms;

/// Why settings could not be set.
#[derive(Debug)]
pub enum SettingsError {
    /// The text is not a JSON object.
    InvalidJson(serde_json::Error),
    /// The default settings file is missing the fields of these settings.
    MissingFields(Vec<Option<&'static str>>),
}

/// The settings that an optional file has content for.
pub open spec fn types_of<C>(settings: Option<DeserializedSettingMap<C>>) -> Set<u64> {
    match settings {
        Some(map) => map@.dom(),
        None => Set::empty(),
    }
}

/// The model of what came of setting a file.
pub open spec fn outcome_of(result: Result<(), SettingsError>) -> Outcome {
    match result {
        Ok(_) => Outcome::Done,
        Err(SettingsError::InvalidJson(_)) => Outcome::InvalidJson,
        Err(SettingsError::MissingFields(_)) => Outcome::MissingFields,
    }
}

/// The model of an optional text.
pub open spec fn content_view(content: Option<&str>) -> Option<Seq<char>> {
    match content {
        Some(text) => Some(text@),
        None => None,
    }
}

/// A set of strongly-typed setting values defined via multiple JSON files.
pub struct SettingsStore<S: Setting> {
    setting_keys: Vec<(Option<&'static str>, u64)>,
    setting_values: HashMap<u64, SettingValue<S>>,
    default_deserialized_settings: DeserializedSettingMap<S::FileContent>,
    user_deserialized_settings: Option<DeserializedSettingMap<S::FileContent>>,
    local_deserialized_settings: PathMap<DeserializedSettingMap<S::FileContent>>,
}

impl<S: Setting> View for SettingsStore<S> {
    type V = SettingsModel<S>;

    closed spec fn view(&self) -> SettingsModel<S> {
        SettingsModel {
            keys: self.setting_keys@.map_values(
                |key: (Option<&'static str>, u64)| (name_view(key.0), key.1),
            ),
            settings: self.setting_values@.map_values(|value: SettingValue<S>| value.setting),
            default_settings: self.default_deserialized_settings@,
            user_settings: match self.user_deserialized_settings {
                Some(user) => Some(user@),
                None => None,
            },
            local_settings: local_view(self.local_deserialized_settings),
            global_values: Map::new(
                |id: u64|
                    self.setting_values@.contains_key(id)
                        && self.setting_values@[id].global_value is Some,
                |id: u64| self.setting_values@[id].global_value->0,
            ),
            local_values: self.setting_values@.map_values(
                |value: SettingValue<S>| value.local_values@,
            ),
        }
    }
}

impl<S: Setting> Default for SettingsStore<S> {
    fn default() -> (store: Self)
        ensures
            store.wf(),
            store@ == (SettingsModel::<S> {
                keys: Seq::empty(),
                settings: Map::empty(),
                default_settings: Map::empty(),
                user_settings: None,
                local_settings: Map::empty(),
                global_values: Map::empty(),
                local_values: Map::empty(),
            }),
    {
        let store = SettingsStore {
            setting_keys: Vec::new(),
            setting_values: HashMap::new(),
            default_deserialized_settings: HashMap::new(),
            user_deserialized_settings: None,
            local_deserialized_settings: PathMap::new(),
        };
        proof {
            assert(store@.keys =~= Seq::empty());
            assert(store@.settings =~= Map::empty());
            assert(store@.default_settings =~= Map::empty());
            assert(store@.local_settings =~= Map::empty());
            assert(store@.global_values =~= Map::empty());
            assert(store@.local_values =~= Map::empty());
        }
        store
    }
}

impl<S: Setting> SettingsStore<S> {
    /// The parts of the store are well formed.
    pub closed spec fn inv(&self) -> bool {
        &&& self.local_deserialized_settings.wf()
        &&& forall|id: u64| #[trigger]
            self.setting_values@.contains_key(id) ==> self.setting_values@[id].wf()
    }

    /// What holds of every store.
    pub open spec fn wf(&self) -> bool {
        self.inv() && self@.valid()
    }

    /// The settings that the changed file has content for, or that it had content for before, in
    /// the order of their keys.
    fn changed_setting_types(
        &self,
        user_settings_changed: bool,
        changed_local_path: Option<&SettingsPath>,
        old_settings_map: &Option<DeserializedSettingMap<S::FileContent>>,
    ) -> (changed: Vec<u64>)
        requires
            self.wf(),
            types_of(*old_settings_map).subset_of(self@.settings.dom()),
        ensures
            changed@.no_duplicates(),
            forall|id: u64| #[trigger] changed@.contains(id) <==> self@.changed_types(
                user_settings_changed,
                path_view(changed_local_path),
                types_of(*old_settings_map),
            ).contains(id),
            forall|id: u64| #[trigger] changed@.contains(id) ==> self@.settings.contains_key(id),
    {
        let new_settings_map: Option<&DeserializedSettingMap<S::FileContent>> =
            if let Some(changed_path) = changed_local_path {
            self.local_deserialized_settings.get(changed_path)
        } else if user_settings_changed {
            self.user_deserialized_settings.as_ref()
        } else {
            Some(&self.default_deserialized_settings)
        };
        let ghost types = self@.changed_types(
            user_settings_changed,
            path_view(changed_local_path),
            types_of(*old_settings_map),
        );
        let ghost keys = self@.keys;
        let mut changed: Vec<u64> = Vec::new();
        let mut i: usize = 0;
        while i < self.setting_keys.len()
            invariant
                self.wf(),
                types_of(*old_settings_map).subset_of(self@.settings.dom()),
                keys == self@.keys,
                keys.len() == self.setting_keys.len(),
                i <= keys.len(),
                forall|id: u64| #[trigger] types.contains(id) <==> {
                    ||| new_settings_map matches Some(settings) && settings@.contains_key(id)
                    ||| types_of(*old_settings_map).contains(id)
                },
                changed@.no_duplicates(),
                forall|id: u64| #[trigger] changed@.contains(id) <==> types.contains(id) && exists|j: int|
                    0 <= j < i && (#[trigger] keys[j]).1 == id,
            decreases keys.len() - i,
        {
            let id: u64 = self.setting_keys[i].1;
            assert(keys[i as int].1 == id);
            let is_new = match new_settings_map {
                Some(settings) => settings.contains_key(&id),
                None => false,
            };
            let was_old = match old_settings_map {
                Some(previous) => previous.contains_key(&id),
                None => false,
            };
            let ghost before = changed@;
            if is_new || was_old {
                assert(!before.contains(id)) by {
                    if before.contains(id) {
                        let j = choose|j: int| 0 <= j < i && (#[trigger] keys[j]).1 == id;
                        assert(keys[j].1 != keys[i as int].1);
                    }
                }
                changed.push(id);
            }
            proof {
                assert forall|other: u64| #[trigger] changed@.contains(other) <==> types.contains(other)
                    && exists|j: int| 0 <= j < i + 1 && (#[trigger] keys[j]).1 == other by {
                    if changed@.contains(other) {
                        if other != id {
                            let k = changed@.index_of(other);
                            assert(before[k] == other);
                            assert(before.contains(other));
                        }
                    }
                    if types.contains(other) && exists|j: int| 0 <= j < i + 1 && (#[trigger] keys[j]).1 == other {
                        if other == id {
                            assert(changed@[changed@.len() - 1] == id);
                        } else {
                            assert(before.contains(other));
                            let k = before.index_of(other);
                            assert(changed@[k] == other);
                        }
                    }
                }
            }
            i = i + 1;
        }
        proof {
            assert forall|id: u64| #[trigger] types.contains(id) implies changed@.contains(id) by {
                assert(self@.settings.contains_key(id));
            }
        }
        changed
    }

    /// Loads anew the values of every setting that the changed file has content for, or that it had
    /// content for before.
    fn recompute_values(
        &mut self,
        user_settings_changed: bool,
        changed_local_path: Option<&SettingsPath>,
        old_settings_map: Option<DeserializedSettingMap<S::FileContent>>,
    )
        requires
            old(self).wf(),
            types_of(old_settings_map).subset_of(old(self)@.settings.dom()),
            forall|id: u64| #[trigger]
                old(self)@.changed_types(
                    user_settings_changed,
                    path_view(changed_local_path),
                    types_of(old_settings_map),
                ).contains(id) && old(self)@.needs_default(id, path_view(changed_local_path))
                    ==> old(self)@.default_settings.contains_key(id),
        ensures
            final(self).wf(),
            old(self)@.recomputed(
                old(self)@.changed_types(
                    user_settings_changed,
                    path_view(changed_local_path),
                    types_of(old_settings_map),
                ),
                path_view(changed_local_path),
                final(self)@,
            ),
    {
        // Identify all of the setting types that have changed.
        let changed_setting_types = self.changed_setting_types(
            user_settings_changed,
            changed_local_path,
            &old_settings_map,
        );
        let ghost before = *self;
        let ghost model = self@;
        let ghost changed_path = path_view(changed_local_path);
        let ghost types = model.changed_types(
            user_settings_changed,
            changed_path,
            types_of(old_settings_map),
        );

        // Reload the global and local values for every changed setting.
        let mut k: usize = 0;
        while k < changed_setting_types.len()
            invariant
                k <= changed_setting_types.len(),
                before.wf(),
                model == before@,
                changed_path == path_view(changed_local_path),
                changed_setting_types@.no_duplicates(),
                forall|id: u64| #[trigger] changed_setting_types@.contains(id) <==> types.contains(id),
                forall|id: u64| #[trigger] changed_setting_types@.contains(id) ==> model.settings.contains_key(id),
                forall|id: u64| #[trigger]
                    types.contains(id) && model.needs_default(id, changed_path)
                        ==> model.default_settings.contains_key(id),
                self.setting_keys == before.setting_keys,
                self.default_deserialized_settings == before.default_deserialized_settings,
                self.user_deserialized_settings == before.user_deserialized_settings,
                self.local_deserialized_settings == before.local_deserialized_settings,
                self.setting_values@.dom() == before.setting_values@.dom(),
                forall|id: u64| #[trigger]
                    self.setting_values@.contains_key(id) ==> {
                        &&& self.setting_values@[id].wf()
                        &&& self.setting_values@[id].setting == before.setting_values@[id].setting
                    },
                forall|j: int|
                    k <= j < changed_setting_types.len() ==> self.setting_values@[#[trigger] changed_setting_types@[j]]
                        == before.setting_values@[changed_setting_types@[j]],
                forall|id: u64| #[trigger]
                    self.setting_values@.contains_key(id) && !types.contains(id) ==> self.setting_values@[id]
                        == before.setting_values@[id],
                forall|j: int|
                    0 <= j < k ==> {
                        let id = #[trigger] changed_setting_types@[j];
                        model.reloaded(
                            id,
                            changed_path,
                            (before.setting_values@[id].global_value, before.setting_values@[id].local_values@),
                            (self.setting_values@[id].global_value, self.setting_values@[id].local_values@),
                        )
                    },
            decreases changed_setting_types.len() - k,
        {
            let id: u64 = changed_setting_types[k];
            assert(changed_setting_types@.contains(id));
            assert(types.contains(id));
            assert(before.setting_values@.contains_key(id));
            let ghost values = self.setting_values@;
            let mut setting_value = self.setting_values.remove(&id).unwrap();
            reload_setting(
                &mut setting_value,
                id,
                &self.default_deserialized_settings,
                &self.user_deserialized_settings,
                &self.local_deserialized_settings,
                changed_local_path,
                Ghost(model),
            );
            self.setting_values.insert(id, setting_value);
            proof {
                assert(self.setting_values@ =~= values.insert(id, setting_value));
                assert(self.setting_values@.dom() =~= before.setting_values@.dom());
            }
            k = k + 1;
        }
        proof {
            let after = self@;
            assert(after.keys == model.keys);
            assert(after.settings =~= model.settings);
            assert(after.local_values.dom() =~= model.local_values.dom());
            assert forall|id: u64| #[trigger] model.settings.contains_key(id) implies if types.contains(id) {
                model.reloaded(
                    id,
                    changed_path,
                    (model.global_values.get(id), model.local_values[id]),
                    (after.global_values.get(id), after.local_values[id]),
                )
            } else {
                &&& after.global_values.get(id) == model.global_values.get(id)
                &&& after.local_values[id] == model.local_values[id]
            } by {
                assert(self.setting_values@.contains_key(id));
                assert(model.global_values.get(id) == before.setting_values@[id].global_value);
                assert(after.global_values.get(id) == self.setting_values@[id].global_value);
                if types.contains(id) {
                    assert(changed_setting_types@.contains(id));
                    let j = changed_setting_types@.index_of(id);
                    assert(changed_setting_types@[j] == id);
                }
            }
            assert(model.recomputed(types, changed_path, after));
        }
    }

    /// Reads the setting of the key at position `index` from `text`, and puts what it read into
    /// `map`.
    fn load_setting_into(
        &self,
        map: &mut DeserializedSettingMap<S::FileContent>,
        index: usize,
        text: &str,
    )
        requires
            self.wf(),
            index < self@.keys.len(),
            !old(map)@.contains_key(self@.keys[index as int].1),
        ensures
            ({
                let id = self@.keys[index as int].1;
                &&& reads(self@.settings[id], text@, final(map)@.get(id))
                &&& final(map)@.remove(id) == old(map)@
            }),
    {
        let id: u64 = self.setting_keys[index].1;
        assert(id == self@.keys[index as int].1);
        assert(self.setting_values@.contains_key(id));
        let result = self.setting_values.get(&id).unwrap().deserialize_setting(text);
        let ghost before = map@;
        if let Ok(deserialized_value) = result {
            map.insert(id, deserialized_value);
        }
        proof {
            assert(map@.get(id) == result.ok());
            assert(map@.remove(id) =~= before);
        }
    }

    /// `map` holds what the settings of the first `n` keys have from a file, and nothing else.
    spec fn loaded_up_to(
        &self,
        json: Seq<char>,
        members: Map<Seq<char>, Seq<char>>,
        map: Map<u64, S::FileContent>,
        n: int,
    ) -> bool {
        &&& forall|i: int|
            0 <= i < n ==> reads_from_file(
                self@.settings[(#[trigger] self@.keys[i]).1],
                self@.keys[i].0,
                json,
                members,
                map.get(self@.keys[i].1),
            )
        &&& forall|id: u64| #[trigger]
            map.contains_key(id) ==> exists|i: int| 0 <= i < n && (#[trigger] self@.keys[i]).1 == id
    }

    /// The setting of the next key has no content yet.
    proof fn lemma_next_absent(
        &self,
        json: Seq<char>,
        members: Map<Seq<char>, Seq<char>>,
        map: Map<u64, S::FileContent>,
        n: int,
    )
        requires
            self.wf(),
            0 <= n < self@.keys.len(),
            self.loaded_up_to(json, members, map, n),
        ensures
            !map.contains_key(self@.keys[n].1),
    {
        if map.contains_key(self@.keys[n].1) {
            let j = choose|j: int| 0 <= j < n && (#[trigger] self@.keys[j]).1 == self@.keys[n].1;
            assert(self@.keys[j].1 != self@.keys[n].1);
        }
    }

    /// Loading the setting of the next key loads one key more.
    proof fn lemma_loaded_next(
        &self,
        json: Seq<char>,
        members: Map<Seq<char>, Seq<char>>,
        before: Map<u64, S::FileContent>,
        after: Map<u64, S::FileContent>,
        n: int,
    )
        requires
            self.wf(),
            0 <= n < self@.keys.len(),
            self.loaded_up_to(json, members, before, n),
            reads_from_file(
                self@.settings[self@.keys[n].1],
                self@.keys[n].0,
                json,
                members,
                after.get(self@.keys[n].1),
            ),
            after.remove(self@.keys[n].1) == before,
        ensures
            self.loaded_up_to(json, members, after, n + 1),
    {
        let id = self@.keys[n].1;
        assert forall|i: int| 0 <= i < n + 1 implies reads_from_file(
            self@.settings[(#[trigger] self@.keys[i]).1],
            self@.keys[i].0,
            json,
            members,
            after.get(self@.keys[i].1),
        ) by {
            if i < n {
                assert(self@.keys[i].1 != self@.keys[n].1);
                assert(after.get(self@.keys[i].1) == before.get(self@.keys[i].1));
            }
        }
        assert forall|other: u64| #[trigger] after.contains_key(other) implies exists|i: int|
            0 <= i < n + 1 && (#[trigger] self@.keys[i]).1 == other by {
            if other == id {
                assert(self@.keys[n].1 == other);
            } else {
                assert(before.contains_key(other));
                let j = choose|j: int| 0 <= j < n && (#[trigger] self@.keys[j]).1 == other;
                assert(self@.keys[j].1 == other);
            }
        }
    }

    /// A field that no entry has gives its setting no text.
    proof fn lemma_no_source(&self, json: Seq<char>, entries: Seq<(String, String)>, name: Seq<char>)
        requires
            forall|j: int| 0 <= j < entries.len() ==> (#[trigger] entries[j]).0@ != name,
        ensures
            setting_source(Some(name), json, members_of(entries)) is None,
    {
        if members_of(entries).contains_key(name) {
            let j = choose|j: int| has_key_at(entries, name, j);
            assert(entries[j].0@ == name);
        }
    }

    /// Deserializes the settings in a file, given the file's text and the entries of its root
    /// object, into a map keyed by setting type.
    pub fn load_setting_entries(&self, json: &str, entries: &Vec<(String, String)>) -> (map:
        DeserializedSettingMap<S::FileContent>)
        requires
            self.wf(),
            keys_ascending(entries@),
        ensures
            self@.is_setting_map(json@, members_of(entries@), map@),
    {
        let ghost keys = self@.keys;
        let ghost members = members_of(entries@);
        let mut map: DeserializedSettingMap<S::FileContent> = HashMap::new();
        let mut next: usize = 0;

        // Load all of the fields that don't have a key.
        while next < self.setting_keys.len() && self.setting_keys[next].0.is_none()
            invariant
                self.wf(),
                keys == self@.keys,
                members == members_of(entries@),
                keys.len() == self.setting_keys.len(),
                next <= keys.len(),
                self.loaded_up_to(json@, members, map@, next as int),
            decreases keys.len() - next,
        {
            let ghost before = map@;
            proof {
                assert(keys[next as int].0 is None);
                self.lemma_next_absent(json@, members, map@, next as int);
            }
            self.load_setting_into(&mut map, next, json);
            proof {
                self.lemma_loaded_next(json@, members, before, map@, next as int);
            }
            next = next + 1;
        }
        proof {
            assert forall|i: int| next <= i < keys.len() implies (#[trigger] keys[i]).0 is Some by {
                assert(keys[next as int].0 is Some);
                if next < i {
                    assert(!name_less(keys[i].0, keys[next as int].0));
                }
            }
        }

        // For each key in the file, load all of the settings that belong to that key.
        let mut e: usize = 0;
        while e < entries.len()
            invariant
                self.wf(),
                keys_ascending(entries@),
                keys == self@.keys,
                members == members_of(entries@),
                keys.len() == self.setting_keys.len(),
                next <= keys.len(),
                e <= entries.len(),
                self.loaded_up_to(json@, members, map@, next as int),
                forall|i: int| next <= i < keys.len() ==> (#[trigger] keys[i]).0 is Some,
                forall|i: int, j: int|
                    next <= i < keys.len() && 0 <= j < e ==> str_less(
                        (#[trigger] entries@[j]).0@,
                        (#[trigger] keys[i]).0->0,
                    ),
            decreases entries.len() - e,
        {
            let key: &str = entries[e].0.as_str();
            let content: &str = entries[e].1.as_str();
            let mut beyond = false;
            while next < self.setting_keys.len() && !beyond
                invariant
                    self.wf(),
                    keys_ascending(entries@),
                    keys == self@.keys,
                    members == members_of(entries@),
                    keys.len() == self.setting_keys.len(),
                    next <= keys.len(),
                    e < entries.len(),
                    key@ == entries@[e as int].0@,
                    content@ == entries@[e as int].1@,
                    self.loaded_up_to(json@, members, map@, next as int),
                    forall|i: int| next <= i < keys.len() ==> (#[trigger] keys[i]).0 is Some,
                    forall|i: int, j: int|
                        next <= i < keys.len() && 0 <= j < e ==> str_less(
                            (#[trigger] entries@[j]).0@,
                            (#[trigger] keys[i]).0->0,
                        ),
                    beyond ==> next < keys.len() && str_less(key@, keys[next as int].0->0),
                decreases keys.len() - next, (if beyond { 0int } else { 1int }),
            {
                assert(keys[next as int].0 is Some);
                let setting_key: &str = self.setting_keys[next].0.unwrap();
                let ghost before = map@;
                match compare_str(setting_key, key) {
                    Comparison::Less => {
                        proof {
                            assert forall|j: int| 0 <= j < entries@.len() implies (#[trigger] entries@[j]).0@
                                != setting_key@ by {
                                if j < e {
                                    assert(str_less(entries@[j].0@, keys[next as int].0->0));
                                } else if j > e {
                                    assert(str_less(entries@[e as int].0@, entries@[j].0@));
                                    lemma_str_order(setting_key@, key@, entries@[j].0@);
                                }
                                lemma_str_order(setting_key@, setting_key@, setting_key@);
                            }
                            self.lemma_no_source(json@, entries@, setting_key@);
                            self.lemma_next_absent(json@, members, map@, next as int);
                            assert(map@.remove(keys[next as int].1) =~= map@);
                            self.lemma_loaded_next(json@, members, before, map@, next as int);
                        }
                        next = next + 1;
                    },
                    Comparison::Greater => {
                        beyond = true;
                    },
                    Comparison::Equal => {
                        proof {
                            lemma_members(entries@, e as int);
                            self.lemma_next_absent(json@, members, map@, next as int);
                        }
                        self.load_setting_into(&mut map, next, content);
                        proof {
                            self.lemma_loaded_next(json@, members, before, map@, next as int);
                        }
                        next = next + 1;
                    },
                }
            }
            proof {
                assert forall|i: int, j: int| next <= i < keys.len() && 0 <= j < e + 1 implies str_less(
                    (#[trigger] entries@[j]).0@,
                    (#[trigger] keys[i]).0->0,
                ) by {
                    if j == e {
                        let first = keys[next as int].0->0;
                        if next < i {
                            assert(!name_less(keys[i].0, keys[next as int].0));
                            lemma_str_order(key@, first, keys[i].0->0);
                            lemma_str_order(first, keys[i].0->0, key@);
                        }
                    }
                }
            }
            e = e + 1;
        }
        proof {
            assert forall|id: u64| #[trigger] self@.settings.contains_key(id) implies reads_from_file(
                self@.settings[id],
                self@.field_name(id),
                json@,
                members,
                map@.get(id),
            ) by {
                let i = choose|i: int| 0 <= i < keys.len() && (#[trigger] keys[i]).1 == id;
                self@.lemma_field_name(i);
                if i >= next {
                    let name = keys[i].0->0;
                    assert forall|j: int| 0 <= j < entries@.len() implies (#[trigger] entries@[j]).0@
                        != name by {
                        assert(str_less(entries@[j].0@, keys[i].0->0));
                        lemma_str_order(name, name, name);
                    }
                    self.lemma_no_source(json@, entries@, name);
                    if map@.contains_key(id) {
                        let j = choose|j: int| 0 <= j < next && (#[trigger] keys[j]).1 == id;
                        assert(keys[j].1 != keys[i].1);
                    }
                }
            }
            assert(map@.dom().subset_of(self@.settings.dom())) by {
                assert forall|id: u64| map@.dom().contains(id) implies self@.settings.dom().contains(id) by {
                    let j = choose|j: int| 0 <= j < next && (#[trigger] keys[j]).1 == id;
                    assert(self@.settings.contains_key(keys[j].1));
                }
            }
        }
        map
    }

    /// Deserializes the given JSON string into a map keyed by setting type.
    ///
    /// Returns an error if the string doesn't contain a valid JSON object.
    pub fn load_setting_map(&self, json: &str) -> (result: Result<
        DeserializedSettingMap<S::FileContent>,
        SettingsError,
    >)
        requires
            self.wf(),
        ensures
            match json_object(json@) {
                Some(members) => result matches Ok(map) && self@.is_setting_map(json@, members, map@),
                None => result matches Err(SettingsError::InvalidJson(_)),
            },
    {
        match parse_object(json) {
            Ok(entries) => Ok(self.load_setting_entries(json, &entries)),
            Err(error) => Err(SettingsError::InvalidJson(error)),
        }
    }

    /// Whether a setting with this type id has been added to the store.
    pub fn is_registered(&self, type_id: u64) -> (result: bool)
        ensures
            result == self@.settings.contains_key(type_id),
    {
        self.setting_values.contains_key(&type_id)
    }

    /// A position at which a key with this field name keeps the keys in order.
    fn key_position(&self, name: Option<&'static str>) -> (index: usize)
        requires
            self.wf(),
        ensures
            index <= self@.keys.len(),
            forall|i: int|
                0 <= i < index ==> !name_less(name_view(name), (#[trigger] self@.keys[i]).0),
            forall|i: int|
                index <= i < self@.keys.len() ==> !name_less((#[trigger] self@.keys[i]).0, name_view(name)),
    {
        let ghost keys = self@.keys;
        let mut low: usize = 0;
        let mut high: usize = self.setting_keys.len();
        while low < high
            invariant
                self.wf(),
                keys == self@.keys,
                keys.len() == self.setting_keys.len(),
                low <= high <= keys.len(),
                forall|i: int| 0 <= i < low ==> !name_less(name_view(name), (#[trigger] keys[i]).0),
                forall|i: int|
                    high <= i < keys.len() ==> !name_less((#[trigger] keys[i]).0, name_view(name)),
            decreases high - low,
        {
            let middle: usize = low + (high - low) / 2;
            let found: Option<&'static str> = self.setting_keys[middle].0;
            assert(keys[middle as int].0 == name_view(found));
            let comparison = match (found, name) {
                (None, None) => Comparison::Equal,
                (None, Some(_)) => Comparison::Less,
                (Some(_), None) => Comparison::Greater,
                (Some(found_name), Some(wanted)) => compare_str(found_name, wanted),
            };
            proof {
                lemma_name_order(name_view(found), name_view(name), name_view(name));
                lemma_name_order(name_view(name), name_view(found), name_view(found));
                assert forall|i: int| 0 <= i < middle && !name_less(name_view(name), name_view(found)) implies !name_less(
                    name_view(name),
                    (#[trigger] keys[i]).0,
                ) by {
                    assert(!name_less(keys[middle as int].0, keys[i].0));
                    lemma_name_order(keys[i].0, name_view(found), name_view(name));
                }
                assert forall|i: int| middle < i < keys.len() && !name_less(name_view(found), name_view(name)) implies !name_less(
                    (#[trigger] keys[i]).0,
                    name_view(name),
                ) by {
                    assert(!name_less(keys[i].0, keys[middle as int].0));
                    lemma_name_order(name_view(name), name_view(found), keys[i].0);
                }
            }
            match comparison {
                Comparison::Equal => {
                    return middle;
                },
                Comparison::Less => {
                    low = middle + 1;
                },
                Comparison::Greater => {
                    high = middle;
                },
            }
        }
        low
    }

    /// Add a new type of setting to the store.
    ///
    /// This should be done before any settings are loaded.
    pub fn register_setting(&mut self, type_id: u64, setting: S)
        requires
            old(self).wf(),
            !old(self)@.settings.contains_key(type_id),
        ensures
            final(self).wf(),
            old(self)@.registers(type_id, setting, final(self)@),
    {
        let field_name = setting.field_name();
        assert(call_ensures(S::field_name, (&setting,), field_name));
        let ghost model = self@;
        let ghost values = self.setting_values@;
        let index: usize = self.key_position(field_name);
        self.setting_values.insert(type_id, SettingValue::new(setting));
        self.setting_keys.insert(index, (field_name, type_id));
        proof {
            let key = (name_view(field_name), type_id);
            let after = self@;
            assert(after.keys =~= model.keys.insert(index as int, key));
            assert(after.settings =~= model.settings.insert(type_id, setting));
            assert(after.local_values =~= model.local_values.insert(type_id, Map::empty()));
            assert(after.global_values =~= model.global_values) by {
                assert forall|id: u64| after.global_values.contains_key(id) == model.global_values.contains_key(id) by {
                    if id == type_id {
                        assert(!values.contains_key(id));
                    }
                }
            }
            assert forall|id: u64| #[trigger] after.settings.contains_key(id) implies exists|i: int|
                0 <= i < after.keys.len() && (#[trigger] after.keys[i]).1 == id by {
                if id == type_id {
                    assert(after.keys[index as int].1 == id);
                } else {
                    assert(model.settings.contains_key(id));
                    let i = choose|i: int| 0 <= i < model.keys.len() && (#[trigger] model.keys[i]).1 == id;
                    assert(after.keys[if i < index { i } else { i + 1 }].1 == id);
                }
            }
            assert(after.keys_valid());
            assert(model.settings.dom().subset_of(after.settings.dom()));
            assert(after.local_values.dom() =~= after.settings.dom());
            assert forall|path: PathView| #[trigger] after.local_settings.contains_key(path) implies
                after.local_settings[path].dom().subset_of(after.settings.dom()) by {
                assert(model.local_settings.contains_key(path));
            }
        }
    }

    /// The field names of the registered settings without default content, in order.
    fn missing_fields(&self) -> (names: Vec<Option<&'static str>>)
        requires
            self.wf(),
        ensures
            names@.map_values(|name: Option<&'static str>| name_view(name)) == self@.missing_names(),
            names@.len() == 0 <==> self@.default_settings.dom() == self@.settings.dom(),
    {
        let ghost keys = self@.keys;
        let ghost missing = |key: (Option<Seq<char>>, u64)|
            !self@.default_settings.contains_key(key.1);
        let ghost name = |key: (Option<Seq<char>>, u64)| key.0;
        let ghost view = |name: Option<&'static str>| name_view(name);
        let mut names: Vec<Option<&'static str>> = Vec::new();
        let mut i: usize = 0;
        proof {
            assert(keys.take(0) =~= Seq::empty());
            reveal(Seq::filter);
            assert(keys.take(0).filter(missing).map_values(name) =~= Seq::empty());
            assert(names@.map_values(view) =~= Seq::empty());
        }
        while i < self.setting_keys.len()
            invariant
                self.wf(),
                keys == self@.keys,
                keys.len() == self.setting_keys.len(),
                i <= keys.len(),
                missing == (|key: (Option<Seq<char>>, u64)|
                    !self@.default_settings.contains_key(key.1)),
                name == (|key: (Option<Seq<char>>, u64)| key.0),
                view == (|name: Option<&'static str>| name_view(name)),
                names@.map_values(view) == keys.take(i as int).filter(missing).map_values(name),
                names@.len() == 0 ==> forall|j: int|
                    0 <= j < i ==> self@.default_settings.contains_key((#[trigger] keys[j]).1),
                names@.len() > 0 ==> !(self@.settings.dom().subset_of(self@.default_settings.dom())),
            decreases keys.len() - i,
        {
            let key: (Option<&'static str>, u64) = self.setting_keys[i];
            let ghost before = names@;
            assert(keys[i as int] == (name_view(key.0), key.1));
            proof {
                reveal(Seq::filter);
                assert(keys.take(i + 1).drop_last() =~= keys.take(i as int));
                assert(keys.take(i + 1).last() == keys[i as int]);
                assert(self@.settings.contains_key(keys[i as int].1));
            }
            if !self.default_deserialized_settings.contains_key(&key.1) {
                names.push(key.0);
                proof {
                    assert(missing(keys[i as int]));
                    assert(names@.map_values(view) =~= before.map_values(view).push(name_view(key.0)));
                    assert(keys.take(i + 1).filter(missing).map_values(name) =~= keys.take(i as int).filter(
                        missing,
                    ).map_values(name).push(name_view(key.0)));
                    assert(!self@.default_settings.dom().contains(keys[i as int].1));
                }
            } else {
                assert(!missing(keys[i as int]));
            }
            i = i + 1;
        }
        proof {
            assert(keys.take(keys.len() as int) =~= keys);
            if names@.len() == 0 {
                assert forall|id: u64| self@.settings.contains_key(id) implies self@.default_settings.contains_key(
                    id,
                ) by {
                    let j = choose|j: int| 0 <= j < keys.len() && (#[trigger] keys[j]).1 == id;
                    assert(keys[j].1 == id);
                }
                assert(self@.default_settings.dom() =~= self@.settings.dom());
            }
        }
        names
    }

    /// Sets the default settings to the contents of a file, and loads every setting anew. Fails
    /// where a registered setting has no default content, and then loads nothing.
    pub fn replace_default_settings(
        &mut self,
        settings: DeserializedSettingMap<S::FileContent>,
    ) -> (result: Result<(), SettingsError>)
        requires
            old(self).wf(),
            settings@.dom().subset_of(old(self)@.settings.dom()),
        ensures
            final(self).wf(),
            ({
                let model = SettingsModel { default_settings: settings@, ..old(self)@ };
                if settings@.dom() == old(self)@.settings.dom() {
                    &&& result is Ok
                    &&& model.recomputed(old(self)@.settings.dom(), None, final(self)@)
                } else {
                    &&& result matches Err(SettingsError::MissingFields(names))
                    &&& names@.map_values(|name: Option<&'static str>| name_view(name))
                        == model.missing_names()
                    &&& final(self)@ == model
                }
            }),
    {
        let ghost model = SettingsModel { default_settings: settings@, ..self@ };
        proof {
            self@.lemma_keys_valid(model);
        }
        self.default_deserialized_settings = settings;
        assert(self@ == model);
        let missing = self.missing_fields();
        if missing.len() > 0 {
            return Err(SettingsError::MissingFields(missing));
        }
        proof {
            assert(model.changed_types(false, None, Set::empty()) =~= model.settings.dom());
        }
        self.recompute_values(false, None, None);
        Ok(())
    }

    /// Set the default settings via a JSON string.
    ///
    /// The string should contain a JSON object with a default value for every setting.
    pub fn set_default_settings(&mut self, default_settings_content: &str) -> (result: Result<
        (),
        SettingsError,
    >)
        requires
            old(self).wf(),
        ensures
            final(self).wf(),
            old(self)@.sets_default(default_settings_content@, outcome_of(result), final(self)@),
            result matches Err(SettingsError::MissingFields(names)) ==> names@.map_values(
                |name: Option<&'static str>| name_view(name),
            ) == final(self)@.missing_names(),
    {
        match self.load_setting_map(default_settings_content) {
            Ok(settings) => self.replace_default_settings(settings),
            Err(error) => Err(error),
        }
    }

    /// Sets the user settings to the contents of a file, and loads anew every setting that this
    /// file or the previous one has content for.
    pub fn replace_user_settings(&mut self, settings: DeserializedSettingMap<S::FileContent>)
        requires
            old(self).wf(),
            settings@.dom().subset_of(old(self)@.settings.dom()),
            settings@.dom().union(old(self)@.user_types()).subset_of(old(self)@.default_settings.dom()),
        ensures
            final(self).wf(),
            (SettingsModel { user_settings: Some(settings@), ..old(self)@ }).recomputed(
                settings@.dom().union(old(self)@.user_types()),
                None,
                final(self)@,
            ),
    {
        let ghost model = SettingsModel { user_settings: Some(settings@), ..self@ };
        proof {
            self@.lemma_keys_valid(model);
        }
        let mut old_user_settings = Some(settings);
        std::mem::swap(&mut self.user_deserialized_settings, &mut old_user_settings);
        assert(self@ == model);
        self.recompute_values(true, None, old_user_settings);
    }

    /// Set the user settings via a JSON string.
    pub fn set_user_settings(&mut self, user_settings_content: &str) -> (result: Result<
        (),
        SettingsError,
    >)
        requires
            old(self).wf(),
            json_object(user_settings_content@) matches Some(members) ==> old(self)@.can_set_user(
                user_settings_content@,
                members,
            ),
        ensures
            final(self).wf(),
            old(self)@.sets_user(user_settings_content@, outcome_of(result), final(self)@),
    {
        match self.load_setting_map(user_settings_content) {
            Ok(settings) => {
                proof {
                    self@.lemma_types_in(
                        user_settings_content@,
                        json_object(user_settings_content@)->0,
                        settings@,
                    );
                }
                self.replace_user_settings(settings);
                Ok(())
            },
            Err(error) => Err(error),
        }
    }

    /// Sets the local settings of a directory to the contents of a file, and loads anew, for the
    /// directories in it, every setting that the file has content for.
    pub fn replace_local_settings(
        &mut self,
        path: SettingsPath,
        settings: DeserializedSettingMap<S::FileContent>,
    )
        requires
            old(self).wf(),
            settings@.dom().subset_of(old(self)@.settings.dom()),
            settings@.dom().subset_of(old(self)@.default_settings.dom()),
        ensures
            final(self).wf(),
            (SettingsModel {
                local_settings: old(self)@.local_settings.insert(path@, settings@),
                ..old(self)@
            }).recomputed(settings@.dom(), Some(path@), final(self)@),
    {
        let ghost model = SettingsModel {
            local_settings: self@.local_settings.insert(path@, settings@),
            ..self@
        };
        proof {
            self@.lemma_keys_valid(model);
        }
        let changed_path = path.clone();
        self.local_deserialized_settings.insert(path, settings);
        proof {
            assert(self@.local_settings =~= model.local_settings);
            assert(self@ == model);
            assert(model.changed_types(true, Some(path@), Set::empty()) =~= settings@.dom());
            assert(model.contents_valid());
        }
        self.recompute_values(true, Some(&changed_path), None);
    }

    /// Removes the local settings of a directory and the local values for it, and loads anew, for
    /// the directories in it, every setting that the removed file had content for.
    pub fn remove_local_settings(&mut self, path: &SettingsPath)
        requires
            old(self).wf(),
            old(self)@.can_remove_local(path@),
        ensures
            final(self).wf(),
            old(self)@.without_local(path@).recomputed(
                old(self)@.new_types(true, Some(path@)),
                Some(path@),
                final(self)@,
            ),
    {
        let ghost before = *self;
        let ghost model = self@.without_local(path@);
        let removed_map = self.local_deserialized_settings.remove(path);
        let mut i: usize = 0;
        while i < self.setting_keys.len()
            invariant
                before.wf(),
                i <= self.setting_keys.len(),
                self.setting_keys == before.setting_keys,
                self.default_deserialized_settings == before.default_deserialized_settings,
                self.user_deserialized_settings == before.user_deserialized_settings,
                self.local_deserialized_settings.wf(),
                self.local_deserialized_settings@ == before.local_deserialized_settings@.remove(path@),
                before@.keys.len() == self.setting_keys.len(),
                self.setting_values@.dom() == before.setting_values@.dom(),
                forall|id: u64| #[trigger]
                    self.setting_values@.contains_key(id) ==> {
                        &&& self.setting_values@[id].wf()
                        &&& self.setting_values@[id].setting == before.setting_values@[id].setting
                        &&& self.setting_values@[id].global_value
                            == before.setting_values@[id].global_value
                    },
                forall|j: int|
                    0 <= j < before@.keys.len() ==> {
                        let id = (#[trigger] before@.keys[j]).1;
                        self.setting_values@[id].local_values@ == (if j < i {
                            before.setting_values@[id].local_values@.remove(path@)
                        } else {
                            before.setting_values@[id].local_values@
                        })
                    },
            decreases self.setting_keys.len() - i,
        {
            let id: u64 = self.setting_keys[i].1;
            assert(before@.keys[i as int].1 == id);
            assert(before.setting_values@.contains_key(id));
            let ghost values = self.setting_values@;
            let mut setting_value = self.setting_values.remove(&id).unwrap();
            setting_value.remove_local_value(path);
            self.setting_values.insert(id, setting_value);
            proof {
                assert(self.setting_values@ =~= values.insert(id, setting_value));
                assert(self.setting_values@.dom() =~= before.setting_values@.dom());
            }
            i = i + 1;
        }
        proof {
            let after = self@;
            assert(after.settings =~= model.settings);
            assert(after.local_settings =~= model.local_settings);
            assert(after.global_values =~= model.global_values);
            assert forall|id: u64| #[trigger] after.local_values.contains_key(id) implies after.local_values[id]
                == model.local_values[id] by {
                let j = choose|j: int| 0 <= j < before@.keys.len() && (#[trigger] before@.keys[j]).1 == id;
                assert(before@.keys[j].1 == id);
            }
            assert(after.local_values =~= model.local_values);
            assert(after == model);
            before@.lemma_keys_valid(model);
            assert(model.contents_valid());
            assert(model.changed_types(true, Some(path@), types_of(removed_map)) =~= before@.new_types(
                true,
                Some(path@),
            ));
        }
        self.recompute_values(true, Some(path), removed_map);
    }

    /// Add or remove a set of local settings via a JSON string.
    pub fn set_local_settings(
        &mut self,
        path: SettingsPath,
        settings_content: Option<&str>,
    ) -> (result: Result<(), SettingsError>)
        requires
            old(self).wf(),
            match settings_content {
                Some(content) => json_object(content@) matches Some(members)
                    ==> old(self)@.can_set_local(content@, members),
                None => old(self)@.can_remove_local(path@),
            },
        ensures
            final(self).wf(),
            old(self)@.sets_local(
                path@,
                content_view(settings_content),
                outcome_of(result),
                final(self)@,
            ),
    {
        if let Some(settings_content) = settings_content {
            match self.load_setting_map(settings_content) {
                Ok(settings) => {
                    proof {
                        self@.lemma_types_in(
                            settings_content@,
                            json_object(settings_content@)->0,
                            settings@,
                        );
                    }
                    self.replace_local_settings(path, settings);
                    Ok(())
                },
                Err(error) => Err(error),
            }
        } else {
            self.remove_local_settings(&path);
            Ok(())
        }
    }

    /// Whether every setting in `settings` has default content.
    fn have_defaults(&self, settings: &DeserializedSettingMap<S::FileContent>) -> (result: bool)
        requires
            self.wf(),
            settings@.dom().subset_of(self@.settings.dom()),
        ensures
            result == settings@.dom().subset_of(self@.default_settings.dom()),
    {
        let ghost keys = self@.keys;
        let mut i: usize = 0;
        while i < self.setting_keys.len()
            invariant
                self.wf(),
                keys == self@.keys,
                keys.len() == self.setting_keys.len(),
                i <= keys.len(),
                forall|j: int|
                    0 <= j < i && settings@.contains_key((#[trigger] keys[j]).1)
                        ==> self@.default_settings.contains_key(keys[j].1),
            decreases keys.len() - i,
        {
            let id: u64 = self.setting_keys[i].1;
            assert(keys[i as int].1 == id);
            if settings.contains_key(&id) && !self.default_deserialized_settings.contains_key(&id) {
                assert(settings@.dom().contains(id));
                return false;
            }
            i = i + 1;
        }
        proof {
            assert forall|id: u64| settings@.dom().contains(id) implies self@.default_settings.dom().contains(
                id,
            ) by {
                assert(self@.settings.contains_key(id));
                let j = choose|j: int| 0 <= j < keys.len() && (#[trigger] keys[j]).1 == id;
                assert(keys[j].1 == id);
            }
        }
        true
    }

    /// Set the user settings via a JSON string, if every setting that has to be loaded anew has
    /// default content. Otherwise, returns `None` and leaves the store as it is.
    pub fn try_set_user_settings(&mut self, user_settings_content: &str) -> (result: Option<
        Result<(), SettingsError>,
    >)
        requires
            old(self).wf(),
        ensures
            final(self).wf(),
            match result {
                Some(outcome) => {
                    &&& old(self)@.sets_user(
                        user_settings_content@,
                        outcome_of(outcome),
                        final(self)@,
                    )
                    &&& outcome is Ok ==> final(self)@.user_types().union(
                        old(self)@.user_types(),
                    ).subset_of(old(self)@.default_settings.dom())
                },
                None => {
                    &&& final(self)@ == old(self)@
                    &&& json_object(user_settings_content@) matches Some(members)
                    &&& exists|settings: Map<u64, S::FileContent>| #[trigger]
                        old(self)@.is_setting_map(user_settings_content@, members, settings)
                            && !settings.dom().union(old(self)@.user_types()).subset_of(
                            old(self)@.default_settings.dom(),
                        )
                },
            },
            json_object(user_settings_content@) matches Some(members) && old(self)@.can_set_user(
                user_settings_content@,
                members,
            ) ==> result is Some,
    {
        if self.missing_fields().len() == 0 {
            assert forall|members: Map<Seq<char>, Seq<char>>| #[trigger]
                self@.can_set_user(user_settings_content@, members) by {}
            return Some(self.set_user_settings(user_settings_content));
        }
        match self.load_setting_map(user_settings_content) {
            Ok(settings) => {
                let previous_have_defaults = match &self.user_deserialized_settings {
                    Some(previous) => self.have_defaults(previous),
                    None => true,
                };
                let ghost types = settings@.dom();
                let ghost previous = self@.user_types();
                proof {
                    self@.lemma_types_in(
                        user_settings_content@,
                        json_object(user_settings_content@)->0,
                        settings@,
                    );
                    assert(types.union(previous).subset_of(self@.default_settings.dom()) == (
                    types.subset_of(self@.default_settings.dom()) && previous.subset_of(
                        self@.default_settings.dom(),
                    ))) by {
                        assert(types.subset_of(types.union(previous)));
                        assert(previous.subset_of(types.union(previous)));
                    }
                }
                if self.have_defaults(&settings) && previous_have_defaults {
                    self.replace_user_settings(settings);
                    Some(Ok(()))
                } else {
                    None
                }
            },
            Err(error) => Some(Err(error)),
        }
    }

    /// Whether another directory in the one at `path` customizes the setting `id`.
    fn customized_below(&self, path: &SettingsPath, id: u64) -> (result: bool)
        requires
            self.wf(),
        ensures
            result == self@.without_local(path@).needs_default(id, Some(path@)),
    {
        let ghost local = self.local_deserialized_settings;
        let ghost paths = local.paths();
        let ghost model = self@.without_local(path@);
        proof {
            local.lemma_paths();
        }
        let mut i: usize = 0;
        while i < self.local_deserialized_settings.len()
            invariant
                self.wf(),
                local == self.local_deserialized_settings,
                paths == local.paths(),
                model == self@.without_local(path@),
                i <= paths.len(),
                forall|j: int| 0 <= j < i ==> !model.reloads(id, Some(path@), #[trigger] paths[j]),
            decreases paths.len() - i,
        {
            let other = self.local_deserialized_settings.path_at(i);
            let differs = match other.compare(path) {
                Comparison::Equal => false,
                _ => true,
            };
            if differs && other.starts_with(path)
                && self.local_deserialized_settings.value_at(i).contains_key(&id) {
                assert(model.reloads(id, Some(path@), paths[i as int]));
                return true;
            }
            i = i + 1;
        }
        proof {
            local.lemma_paths();
            if exists|p: PathView| model.reloads(id, Some(path@), p) {
                let p = choose|p: PathView| model.reloads(id, Some(path@), p);
                assert(local@.contains_key(p));
                assert(paths.contains(p));
                let j = paths.index_of(p);
                assert(paths[j] == p);
            }
        }
        false
    }

    /// Whether the local settings of a directory can be removed: every setting that then has to be
    /// loaded anew has default content.
    fn can_remove_local_settings(&self, path: &SettingsPath) -> (result: bool)
        requires
            self.wf(),
        ensures
            result == self@.can_remove_local(path@),
    {
        let ghost keys = self@.keys;
        let ghost types = self@.new_types(true, Some(path@));
        if let Some(settings) = self.local_deserialized_settings.get(path) {
            let mut i: usize = 0;
            while i < self.setting_keys.len()
                invariant
                    self.wf(),
                    keys == self@.keys,
                    keys.len() == self.setting_keys.len(),
                    i <= keys.len(),
                    types == settings@.dom(),
                    types == self@.new_types(true, Some(path@)),
                    forall|j: int|
                        0 <= j < i && types.contains((#[trigger] keys[j]).1) && self@.without_local(
                            path@,
                        ).needs_default(keys[j].1, Some(path@)) ==> self@.default_settings.contains_key(
                            keys[j].1,
                        ),
                decreases keys.len() - i,
            {
                let id: u64 = self.setting_keys[i].1;
                assert(keys[i as int].1 == id);
                if settings.contains_key(&id) && !self.default_deserialized_settings.contains_key(&id)
                    && self.customized_below(path, id) {
                    assert(types.contains(id));
                    return false;
                }
                i = i + 1;
            }
            proof {
                assert forall|id: u64| #[trigger] types.contains(id) && self@.without_local(path@).needs_default(
                    id,
                    Some(path@),
                ) implies self@.default_settings.contains_key(id) by {
                    assert(self@.local_settings.contains_key(path@));
                    assert(self@.settings.contains_key(id));
                    let j = choose|j: int| 0 <= j < keys.len() && (#[trigger] keys[j]).1 == id;
                    assert(keys[j].1 == id);
                }
            }
        }
        true
    }

    /// Add or remove a set of local settings via a JSON string, if every setting that has to be
    /// loaded anew has default content. Otherwise, returns `None` and leaves the store as it is.
    pub fn try_set_local_settings(
        &mut self,
        path: SettingsPath,
        settings_content: Option<&str>,
    ) -> (result: Option<Result<(), SettingsError>>)
        requires
            old(self).wf(),
        ensures
            final(self).wf(),
            match result {
                Some(outcome) => {
                    &&& old(self)@.sets_local(
                        path@,
                        content_view(settings_content),
                        outcome_of(outcome),
                        final(self)@,
                    )
                    &&& settings_content is Some && outcome is Ok
                        ==> final(self)@.local_settings[path@].dom().subset_of(
                        old(self)@.default_settings.dom(),
                    )
                },
                None => {
                    &&& final(self)@ == old(self)@
                    &&& settings_content matches Some(content) ==> {
                        &&& json_object(content@) matches Some(members)
                        &&& exists|settings: Map<u64, S::FileContent>| #[trigger]
                            old(self)@.is_setting_map(content@, members, settings)
                                && !settings.dom().subset_of(old(self)@.default_settings.dom())
                    }
                },
            },
            settings_content is None ==> (result is Some <==> old(self)@.can_remove_local(path@)),
            settings_content matches Some(content) && json_object(content@) matches Some(members)
                && old(self)@.can_set_local(content@, members) ==> result is Some,
    {
        let content = match settings_content {
            Some(content) => content,
            None => {
                return if self.can_remove_local_settings(&path) {
                    Some(self.set_local_settings(path, None))
                } else {
                    None
                };
            },
        };
        if self.missing_fields().len() == 0 {
            assert forall|members: Map<Seq<char>, Seq<char>>| #[trigger]
                self@.can_set_local(content@, members) by {}
            return Some(self.set_local_settings(path, settings_content));
        }
        match self.load_setting_map(content) {
            Ok(settings) => {
                proof {
                    self@.lemma_types_in(content@, json_object(content@)->0, settings@);
                }
                if self.have_defaults(&settings) {
                    self.replace_local_settings(path, settings);
                    Some(Ok(()))
                } else {
                    None
                }
            },
            Err(error) => Some(Err(error)),
        }
    }

    /// The loaded values of a setting, if it has been added to the store.
    pub fn setting_value(&self, type_id: u64) -> (value: Option<&SettingValue<S>>)
        requires
            self.wf(),
        ensures
            match value {
                Some(v) => {
                    &&& v.wf()
                    &&& self@.settings.contains_key(type_id)
                    &&& v.setting == self@.settings[type_id]
                    &&& v.global_value == self@.global_values.get(type_id)
                    &&& v.local_values@ == self@.local_values[type_id]
                },
                None => !self@.settings.contains_key(type_id),
            },
    {
        let value = self.setting_values.get(&type_id);
        assert(self.setting_values@.contains_key(type_id) == value is Some);
        value
    }

    /// The value of a setting, if it has one.
    pub fn find(&self, type_id: u64, path: Option<&SettingsPath>) -> (value: Option<&S::Value>)
        requires
            self.wf(),
        ensures
            match value {
                Some(v) => self@.settings.contains_key(type_id) && self@.value(type_id, path_view(path))
                    == Some(*v),
                None => self@.settings.contains_key(type_id) ==> self@.value(type_id, path_view(path))
                    is None,
            },
    {
        match self.setting_value(type_id) {
            Some(setting_value) => setting_value.find_value(path),
            None => None,
        }
    }

    /// Get the value of a setting.
    ///
    /// Settings must have been loaded, with a default value for this setting.
    pub fn get(&self, type_id: u64, path: Option<&SettingsPath>) -> (value: &S::Value)
        requires
            self.wf(),
            self@.settings.contains_key(type_id),
            self@.value(type_id, path_view(path)) is Some,
        ensures
            self@.value(type_id, path_view(path)) == Some(*value),
    {
        self.setting_value(type_id).unwrap().value_for_path(path)
    }
}

} // verus!
