//! The mathematical model of a settings store.
use vstd::prelude::*;

use crate::parse::{json_object, lemma_str_order, str_less};
use crate::path::{path_starts_with, PathView};
use crate::setting::{loaded, named, reads, value_in_effect, Setting};

verus! {

/// What a settings store holds.
#[verifier::ext_equal]
#[verifier::reject_recursive_types(S)]
pub struct SettingsModel<S: Setting> {
    /// The field name and type id of every registered setting, in order of field name.
    pub keys: Seq<(Option<Seq<char>>, u64)>,
    /// The registered settings by type id.
    pub settings: Map<u64, S>,
    /// The contents of the default settings file by type id.
    pub default_settings: Map<u64, S::FileContent>,
    /// The contents of the user settings file by type id, once it has been set.
    pub user_settings: Option<Map<u64, S::FileContent>>,
    /// The contents of each local settings file by directory and type id.
    pub local_settings: Map<PathView, Map<u64, S::FileContent>>,
    /// The loaded global value of each setting that has one.
    pub global_values: Map<u64, S::Value>,
    /// The loaded local values of each registered setting by directory.
    pub local_values: Map<u64, Map<PathView, S::Value>>,
}

/// What comes of setting a file.
pub enum Outcome {
    /// The file was set.
    Done,
    /// The text is not a JSON object.
    InvalidJson,
    /// The file does not have default content for every registered setting.
    MissingFields,
}

/// The order of field names: the root object before any field.
pub open spec fn name_less(a: Option<Seq<char>>, b: Option<Seq<char>>) -> bool {
    match (a, b) {
        (None, Some(_)) => true,
        (Some(x), Some(y)) => str_less(x, y),
        (_, None) => false,
    }
}

/// The order of field names is a strict order, total on distinct names.
pub proof fn lemma_name_order(a: Option<Seq<char>>, b: Option<Seq<char>>, c: Option<Seq<char>>)
    ensures
        !name_less(a, a),
        a == b || name_less(a, b) || name_less(b, a),
        name_less(a, b) && name_less(b, c) ==> name_less(a, c),
        !name_less(b, a) && !name_less(c, b) ==> !name_less(c, a),
{
    if let (Some(x), Some(y)) = (a, b) {
        lemma_str_order(x, y, x);
        if let Some(z) = c {
            lemma_str_order(x, y, z);
            lemma_str_order(z, x, y);
            lemma_str_order(y, z, x);
        }
    }
    if let Some(x) = a {
        lemma_str_order(x, x, x);
    }
}

/// The text from which a setting with this field name is deserialized in a file: the whole file
/// where there is no field name, and otherwise the value of that field, if the file has it.
pub open spec fn setting_source(
    field_name: Option<Seq<char>>,
    json: Seq<char>,
    members: Map<Seq<char>, Seq<char>>,
) -> Option<Seq<char>> {
    match field_name {
        None => Some(json),
        Some(name) => members.get(name),
    }
}

/// `content` is what `setting` has from a file: what it read from its text, or `None` where the
/// file has no text for it or none that it could read.
pub open spec fn reads_from_file<S: Setting>(
    setting: S,
    field_name: Option<Seq<char>>,
    json: Seq<char>,
    members: Map<Seq<char>, Seq<char>>,
    content: Option<S::FileContent>,
) -> bool {
    match setting_source(field_name, json, members) {
        Some(text) => reads(setting, text, content),
        None => content is None,
    }
}

/// Whether the settings file of `directory` customizes the setting `id`.
pub open spec fn customizes<C>(
    local_settings: Map<PathView, Map<u64, C>>,
    directory: PathView,
    id: u64,
) -> bool {
    local_settings.contains_key(directory) && local_settings[directory].contains_key(id)
}

/// The contents for the setting `id` in the local settings files of the directories
/// `path.take(0)`, .., `path.take(n - 1)`, outermost first.
pub open spec fn layers<C>(
    local_settings: Map<PathView, Map<u64, C>>,
    id: u64,
    path: PathView,
    n: nat,
) -> Seq<C>
    decreases n,
{
    if n == 0 {
        Seq::empty()
    } else {
        let outer = layers(local_settings, id, path, (n - 1) as nat);
        let directory = path.take(n - 1);
        if customizes(local_settings, directory, id) {
            outer.push(local_settings[directory][id])
        } else {
            outer
        }
    }
}

impl<S: Setting> SettingsModel<S> {
    /// The keys are in order of field name, and there is exactly one for each registered setting.
    pub open spec fn keys_valid(self) -> bool {
        &&& forall|i: int, j: int|
            0 <= i < j < self.keys.len() ==> !name_less((#[trigger] self.keys[j]).0, (#[trigger] self.keys[i]).0)
        &&& forall|i: int, j: int|
            0 <= i < j < self.keys.len() ==> (#[trigger] self.keys[i]).1 != (#[trigger] self.keys[j]).1
        &&& forall|i: int|
            0 <= i < self.keys.len() ==> self.settings.contains_key((#[trigger] self.keys[i]).1)
        &&& forall|id: u64| #[trigger]
            self.settings.contains_key(id) ==> exists|i: int|
                0 <= i < self.keys.len() && (#[trigger] self.keys[i]).1 == id
    }

    /// Whether the key at position `i` is that of the setting `id`.
    pub open spec fn is_key_of(self, id: u64, i: int) -> bool {
        0 <= i < self.keys.len() && self.keys[i].1 == id
    }

    /// The field name of the setting `id`.
    pub open spec fn field_name(self, id: u64) -> Option<Seq<char>> {
        self.keys[choose|i: int| self.is_key_of(id, i)].0
    }

    /// The field name of a setting is the one in its key.
    pub proof fn lemma_field_name(self, i: int)
        requires
            self.keys_valid(),
            0 <= i < self.keys.len(),
        ensures
            self.field_name(self.keys[i].1) == self.keys[i].0,
    {
        let id = self.keys[i].1;
        assert(self.is_key_of(id, i));
        let k = choose|k: int| self.is_key_of(id, k);
        assert(self.is_key_of(id, k));
        if k < i {
            assert(self.keys[k].1 != self.keys[i].1);
        } else if i < k {
            assert(self.keys[i].1 != self.keys[k].1);
        }
    }

    /// Only registered settings have contents and values.
    pub open spec fn contents_valid(self) -> bool {
        &&& self.default_settings.dom().subset_of(self.settings.dom())
        &&& self.user_types().subset_of(self.settings.dom())
        &&& forall|path: PathView| #[trigger]
            self.local_settings.contains_key(path) ==> self.local_settings[path].dom().subset_of(
                self.settings.dom(),
            )
        &&& self.global_values.dom().subset_of(self.settings.dom())
        &&& self.local_values.dom() == self.settings.dom()
    }

    /// What holds of every store.
    pub open spec fn valid(self) -> bool {
        self.keys_valid() && self.contents_valid()
    }

    /// Whether the keys are valid depends on the keys and the settings alone.
    pub proof fn lemma_keys_valid(self, other: Self)
        requires
            self.keys_valid(),
            other.keys == self.keys,
            other.settings == self.settings,
        ensures
            other.keys_valid(),
    {
    }

    /// The field names of the registered settings without default content, in order.
    pub open spec fn missing_names(self) -> Seq<Option<Seq<char>>> {
        self.keys.filter(
            |key: (Option<Seq<char>>, u64)| !self.default_settings.contains_key(key.1),
        ).map_values(|key: (Option<Seq<char>>, u64)| key.0)
    }

    /// The registered settings that may read content from a file.
    pub open spec fn types_in(
        self,
        json: Seq<char>,
        members: Map<Seq<char>, Seq<char>>,
    ) -> Set<u64> {
        Set::new(
            |id: u64|
                self.settings.contains_key(id) && exists|content: S::FileContent| #[trigger]
                    reads_from_file(
                        self.settings[id],
                        self.field_name(id),
                        json,
                        members,
                        Some(content),
                    ),
        )
    }

    /// `map` holds what each registered setting has from a file, and nothing else.
    pub open spec fn is_setting_map(
        self,
        json: Seq<char>,
        members: Map<Seq<char>, Seq<char>>,
        map: Map<u64, S::FileContent>,
    ) -> bool {
        &&& map.dom().subset_of(self.settings.dom())
        &&& forall|id: u64| #[trigger]
            self.settings.contains_key(id) ==> reads_from_file(
                self.settings[id],
                self.field_name(id),
                json,
                members,
                map.get(id),
            )
    }

    /// Only settings that may read content from a file have content from it.
    pub proof fn lemma_types_in(
        self,
        json: Seq<char>,
        members: Map<Seq<char>, Seq<char>>,
        map: Map<u64, S::FileContent>,
    )
        requires
            self.is_setting_map(json, members, map),
        ensures
            map.dom().subset_of(self.types_in(json, members)),
    {
        assert forall|id: u64| map.dom().contains(id) implies self.types_in(json, members).contains(id) by {
            assert(self.settings.contains_key(id));
            assert(map.get(id) == Some(map[id]));
            assert(reads_from_file(
                self.settings[id],
                self.field_name(id),
                json,
                members,
                Some(map[id]),
            ));
        }
    }

    /// The settings that the user settings file has content for.
    pub open spec fn user_types(self) -> Set<u64> {
        match self.user_settings {
            Some(user) => user.dom(),
            None => Set::empty(),
        }
    }

    /// The settings that the file which has changed has content for.
    pub open spec fn new_types(self, user_settings_changed: bool, changed_path: Option<PathView>) -> Set<
        u64,
    > {
        match changed_path {
            Some(path) => if self.local_settings.contains_key(path) {
                self.local_settings[path].dom()
            } else {
                Set::empty()
            },
            None => if user_settings_changed {
                self.user_types()
            } else {
                self.default_settings.dom()
            },
        }
    }

    /// The settings to load anew: those that the changed file has content for, and the
    /// `old_types` that it had content for before.
    pub open spec fn changed_types(
        self,
        user_settings_changed: bool,
        changed_path: Option<PathView>,
        old_types: Set<u64>,
    ) -> Set<u64> {
        self.new_types(user_settings_changed, changed_path).union(old_types)
    }

    /// The content for the setting `id` in the user settings file, if it has one.
    pub open spec fn user_layer(self, id: u64) -> Seq<S::FileContent> {
        match self.user_settings {
            Some(user) => if user.contains_key(id) {
                seq![user[id]]
            } else {
                Seq::empty()
            },
            None => Seq::empty(),
        }
    }

    /// The user contents for the setting `id` at `path`, least specific first: that of the user
    /// settings file, then those of the local settings files of the directories from the outermost
    /// to `path` itself.
    pub open spec fn user_values(self, id: u64, path: Option<PathView>) -> Seq<S::FileContent> {
        match path {
            Some(p) => self.user_layer(id) + layers(self.local_settings, id, p, p.len() + 1),
            None => self.user_layer(id),
        }
    }

    /// `value` is loaded from the default content and the user contents for the setting `id` at
    /// `path`.
    pub open spec fn loads(self, id: u64, path: Option<PathView>, value: S::Value) -> bool {
        &&& self.default_settings.contains_key(id)
        &&& loaded(
            self.settings[id],
            self.default_settings[id],
            self.user_values(id, path),
            value,
        )
    }

    /// The value in effect for the setting `id` at `path`.
    pub open spec fn value(self, id: u64, path: Option<PathView>) -> Option<S::Value> {
        value_in_effect(self.global_values.get(id), self.local_values[id], path)
    }

    /// Whether the local value of the setting `id` for `path` is loaded anew when the files of
    /// `changed_path`, or else the global files, have changed.
    pub open spec fn reloads(self, id: u64, changed_path: Option<PathView>, path: PathView) -> bool {
        &&& customizes(self.local_settings, path, id)
        &&& changed_path matches Some(changed) ==> path_starts_with(path, changed)
    }

    /// Whether loading the setting `id` anew needs its default content.
    pub open spec fn needs_default(self, id: u64, changed_path: Option<PathView>) -> bool {
        changed_path is None || exists|path: PathView| self.reloads(id, changed_path, path)
    }

    /// `values` are the values for the setting `id` after it was loaded anew for the directories
    /// that need it, and `before` the ones that it had.
    pub open spec fn reloaded(
        self,
        id: u64,
        changed_path: Option<PathView>,
        before: (Option<S::Value>, Map<PathView, S::Value>),
        after: (Option<S::Value>, Map<PathView, S::Value>),
    ) -> bool {
        &&& match changed_path {
            None => after.0 matches Some(value) && self.loads(id, None, value),
            Some(_) => after.0 == before.0,
        }
        &&& forall|path: PathView| #![trigger after.1.contains_key(path)]
            if self.reloads(id, changed_path, path) {
                after.1.contains_key(path) && self.loads(id, Some(path), after.1[path])
            } else {
                after.1.get(path) == before.1.get(path)
            }
    }

    /// Whether the settings that may read content from the user settings file `json`, and those in
    /// the one that it replaces, all have default content.
    pub open spec fn can_set_user(self, json: Seq<char>, members: Map<Seq<char>, Seq<char>>) -> bool {
        self.types_in(json, members).union(self.user_types()).subset_of(self.default_settings.dom())
    }

    /// Whether the settings that may read content from the local settings file `json` all have
    /// default content.
    pub open spec fn can_set_local(self, json: Seq<char>, members: Map<Seq<char>, Seq<char>>) -> bool {
        self.types_in(json, members).subset_of(self.default_settings.dom())
    }

    /// This model without the local settings file of `path` and the local values for it.
    pub open spec fn without_local(self, path: PathView) -> Self {
        SettingsModel {
            local_settings: self.local_settings.remove(path),
            local_values: self.local_values.map_values(
                |values: Map<PathView, S::Value>| values.remove(path),
            ),
            ..self
        }
    }

    /// Whether every setting that has to be loaded anew once the local settings file of `path` is
    /// gone has default content.
    pub open spec fn can_remove_local(self, path: PathView) -> bool {
        forall|id: u64| #[trigger]
            self.new_types(true, Some(path)).contains(id) && self.without_local(path).needs_default(
                id,
                Some(path),
            ) ==> self.default_settings.contains_key(id)
    }

    /// `after` is this model after `setting` was added under the id `type_id`, with a key of the
    /// field name that the setting gave.
    pub open spec fn registers(self, type_id: u64, setting: S, after: Self) -> bool {
        &&& after == SettingsModel {
            keys: after.keys,
            settings: self.settings.insert(type_id, setting),
            local_values: self.local_values.insert(type_id, Map::<PathView, S::Value>::empty()),
            ..self
        }
        &&& exists|index: int, name: Option<Seq<char>>|
            0 <= index <= self.keys.len() && named(setting, name) && after.keys
                == #[trigger] self.keys.insert(index, (name, type_id))
    }

    /// This model with the values of `other`.
    pub open spec fn with_values_of(self, other: Self) -> Self {
        SettingsModel {
            global_values: other.global_values,
            local_values: other.local_values,
            ..self
        }
    }

    /// `after` differs from this model only in the values of the settings `changed`, which were
    /// loaded anew where `changed_path` asks for it.
    pub open spec fn recomputed(
        self,
        changed: Set<u64>,
        changed_path: Option<PathView>,
        after: Self,
    ) -> bool {
        &&& after == self.with_values_of(after)
        &&& after.local_values.dom() == self.local_values.dom()
        &&& forall|id: u64| #[trigger]
            self.settings.contains_key(id) ==> if changed.contains(id) {
                self.reloaded(
                    id,
                    changed_path,
                    (self.global_values.get(id), self.local_values[id]),
                    (after.global_values.get(id), after.local_values[id]),
                )
            } else {
                &&& after.global_values.get(id) == self.global_values.get(id)
                &&& after.local_values[id] == self.local_values[id]
            }
        &&& after.global_values.dom().subset_of(self.settings.dom())
    }

    /// `after` is this model, and `outcome` what came of it, after the default settings were set to
    /// the text `json`. A file that lacks content for a registered setting replaces the contents of
    /// the one before it, and loads nothing.
    pub open spec fn sets_default(self, json: Seq<char>, outcome: Outcome, after: Self) -> bool {
        match json_object(json) {
            None => outcome is InvalidJson && after == self,
            Some(members) => {
                let settings = after.default_settings;
                let model = SettingsModel { default_settings: settings, ..self };
                &&& self.is_setting_map(json, members, settings)
                &&& if settings.dom() == self.settings.dom() {
                    outcome is Done && model.recomputed(self.settings.dom(), None, after)
                } else {
                    outcome is MissingFields && after == model
                }
            },
        }
    }

    /// `after` is this model, and `outcome` what came of it, after the user settings were set to the
    /// text `json`.
    pub open spec fn sets_user(self, json: Seq<char>, outcome: Outcome, after: Self) -> bool {
        match json_object(json) {
            None => outcome is InvalidJson && after == self,
            Some(members) => {
                &&& outcome is Done
                &&& after.user_settings matches Some(settings)
                &&& self.is_setting_map(json, members, settings)
                &&& (SettingsModel { user_settings: Some(settings), ..self }).recomputed(
                    settings.dom().union(self.user_types()),
                    None,
                    after,
                )
            },
        }
    }

    /// `after` is this model, and `outcome` what came of it, after the local settings of `path` were
    /// set to the text `content`, or removed.
    pub open spec fn sets_local(
        self,
        path: PathView,
        content: Option<Seq<char>>,
        outcome: Outcome,
        after: Self,
    ) -> bool {
        match content {
            Some(json) => match json_object(json) {
                None => outcome is InvalidJson && after == self,
                Some(members) => {
                    let settings = after.local_settings[path];
                    &&& outcome is Done
                    &&& self.is_setting_map(json, members, settings)
                    &&& (SettingsModel {
                        local_settings: self.local_settings.insert(path, settings),
                        ..self
                    }).recomputed(settings.dom(), Some(path), after)
                },
            },
            None => {
                &&& outcome is Done
                &&& self.without_local(path).recomputed(
                    self.new_types(true, Some(path)),
                    Some(path),
                    after,
                )
            },
        }
    }
}

} // verus!
