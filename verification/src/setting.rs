//! What a setting is, and the values that the store holds for one.
use vstd::prelude::*;

use crate::json::{merge_all, JsonView};
use crate::json::{merge_non_null_json_value_into, Json};
use crate::path::SettingsPath;
use crate::path::{lemma_path_trichotomy, lemma_prefix_less, path_less, path_starts_with, PathView};
use crate::path_map::PathMap;

verus! {

/// A type of setting that users can define.
///
/// Settings can be loaded from a combination of multiple JSON files. A value of the implementing
/// type stands for one type of setting; a store holds many of them, told apart by type ids.
pub trait Setting: Sized {
    /// The type that is stored in an individual JSON file.
    type FileContent;

    /// The type of the loaded setting.
    type Value;

    /// The name of a field within the JSON file from which this setting should
    /// be deserialized. If this is `None`, then the setting will be deserialized
    /// from the root object.
    fn field_name(&self) -> (name: Option<&'static str>)
        default_ensures
            name is None,
    {
        None
    }

    /// Reads this setting's file content from JSON text.
    fn deserialize(&self, json: &str) -> Result<Self::FileContent, String>;

    /// The logic for combining together values from one or more JSON files into the
    /// final value for this setting.
    ///
    /// The user values are ordered from least specific (the global settings file)
    /// to most specific (the innermost local settings file).
    fn load(
        &self,
        default_value: &Self::FileContent,
        user_values: &[&Self::FileContent],
    ) -> Self::Value;

    /// Combines the values by merging them as JSON, least specific first, where values that are
    /// null do not override less specific ones. The merged JSON must be one that can be read as a
    /// value; [`try_load_via_json_merge`] reports where it is not.
    fn load_via_json_merge(
        &self,
        default_value: &Self::FileContent,
        user_values: &[&Self::FileContent],
    ) -> (value: Self::Value) where Self: JsonCodec<Self::FileContent, Self::Value>
        requires
            merge_readable::<Self::FileContent, Self::Value, Self>(
                *self,
                *default_value,
                user_values@.unref(),
            ),
        ensures
            loaded_via_json_merge::<Self::FileContent, Self::Value, Self>(
                *self,
                *default_value,
                user_values@.unref(),
                Ok(value),
            ),
    {
        let result = try_load_via_json_merge(self, default_value, user_values);
        proof {
            if result is Err {
                assert(loaded_via_json_merge::<Self::FileContent, Self::Value, Self>(
                    *self,
                    *default_value,
                    user_values@.unref(),
                    Err(result->Err_0),
                ));
            }
        }
        result.unwrap()
    }
}

/// How the file contents and the value of a setting are written as JSON.
pub trait JsonCodec<Content, Value> {
    /// The JSON value of a file content.
    fn to_json(&self, content: &Content) -> Json;

    /// The setting value that a JSON value stands for, or why it stands for none.
    fn from_json(&self, json: Json) -> Result<Value, String>;
}

/// `json` is what `codec` wrote for `content`.
pub open spec fn encodes<Content, Value, K: JsonCodec<Content, Value>>(
    codec: K,
    content: Content,
    json: JsonView,
) -> bool {
    exists|written: Json|
        written@ == json && #[trigger] call_ensures(K::to_json, (&codec, &content), written)
}

/// `jsons` are what `codec` wrote for each of `contents`.
pub open spec fn encoded<Content, Value, K: JsonCodec<Content, Value>>(
    codec: K,
    contents: Seq<Content>,
    jsons: Seq<JsonView>,
) -> bool {
    &&& jsons.len() == contents.len()
    &&& forall|i: int|
        0 <= i < jsons.len() ==> encodes::<Content, Value, K>(codec, contents[i], #[trigger] jsons[i])
}

/// `result` is what `codec` read from `json`.
pub open spec fn decodes<Content, Value, K: JsonCodec<Content, Value>>(
    codec: K,
    json: JsonView,
    result: Result<Value, String>,
) -> bool {
    exists|read: Json| read@ == json && #[trigger] call_ensures(K::from_json, (&codec, read), result)
}

/// `result` is what `codec` read from the merged JSON values of the default content and the user
/// contents, least specific first.
pub open spec fn loaded_via_json_merge<Content, Value, K: JsonCodec<Content, Value>>(
    codec: K,
    default_value: Content,
    user_values: Seq<Content>,
    result: Result<Value, String>,
) -> bool {
    exists|jsons: Seq<JsonView>|
        #[trigger] encoded::<Content, Value, K>(codec, seq![default_value] + user_values, jsons)
            && decodes::<Content, Value, K>(codec, merge_all(jsons), result)
}

/// `codec` cannot fail to read the merged JSON values of the default content and the user contents.
pub open spec fn merge_readable<Content, Value, K: JsonCodec<Content, Value>>(
    codec: K,
    default_value: Content,
    user_values: Seq<Content>,
) -> bool {
    forall|error: String| !#[trigger]
        loaded_via_json_merge::<Content, Value, K>(codec, default_value, user_values, Err(error))
}

/// Combines the values by merging them as JSON, least specific first, where values that are null do
/// not override less specific ones. Fails where the merged JSON cannot be read as a value, such as
/// where no file gives a field that the value needs.
pub fn try_load_via_json_merge<Content, Value, K: JsonCodec<Content, Value>>(
    codec: &K,
    default_value: &Content,
    user_values: &[&Content],
) -> (result: Result<Value, String>)
    ensures
        loaded_via_json_merge::<Content, Value, K>(
            *codec,
            *default_value,
            user_values@.unref(),
            result,
        ),
{
    let ghost contents = seq![*default_value] + user_values@.unref();
    let mut merged = Json::Null;
    let json = codec.to_json(default_value);
    assert(call_ensures(K::to_json, (codec, default_value), json));
    let ghost mut jsons: Seq<JsonView> = seq![json@];
    proof {
        assert(encoded::<Content, Value, K>(*codec, contents.take(1), jsons));
        assert(jsons.drop_last() =~= Seq::empty());
        assert(merge_all(jsons.drop_last()) is Null);
    }
    merge_non_null_json_value_into(json, &mut merged);
    let mut i: usize = 0;
    while i < user_values.len()
        invariant
            i <= user_values.len(),
            contents == seq![*default_value] + user_values@.unref(),
            encoded::<Content, Value, K>(*codec, contents.take(i + 1), jsons),
            merged@ == merge_all(jsons),
        decreases user_values.len() - i,
    {
        let json = codec.to_json(user_values[i]);
        assert(call_ensures(K::to_json, (codec, user_values@[i as int]), json));
        proof {
            let next = jsons.push(json@);
            assert(next.drop_last() =~= jsons);
            assert forall|j: int| 0 <= j < next.len() implies encodes::<Content, Value, K>(
                *codec,
                contents.take(i + 2)[j],
                #[trigger] next[j],
            ) by {
                if j < jsons.len() {
                    assert(encodes::<Content, Value, K>(*codec, contents.take(i + 1)[j], jsons[j]));
                } else {
                    assert(contents.take(i + 2)[j] == *user_values@[i as int]);
                }
            }
            jsons = next;
        }
        merge_non_null_json_value_into(json, &mut merged);
        i = i + 1;
    }
    let result = codec.from_json(merged);
    proof {
        assert(call_ensures(K::from_json, (codec, merged), result));
        assert(contents.take(contents.len() as int) =~= contents);
        assert(decodes::<Content, Value, K>(*codec, merge_all(jsons), result));
    }
    result
}

/// The model of an optional field name.
pub open spec fn name_view(name: Option<&str>) -> Option<Seq<char>> {
    match name {
        Some(n) => Some(n@),
        None => None,
    }
}

/// `name` is the field name that `setting` gave.
pub open spec fn named<S: Setting>(setting: S, name: Option<Seq<char>>) -> bool {
    exists|given: Option<&'static str>|
        name_view(given) == name && #[trigger] call_ensures(S::field_name, (&setting,), given)
}

/// `content` is what `setting` read from the text `json`, or `None` where it could not.
pub open spec fn reads<S: Setting>(
    setting: S,
    json: Seq<char>,
    content: Option<S::FileContent>,
) -> bool {
    exists|text: &str, result: Result<S::FileContent, String>|
        text@ == json && content == result.ok() && #[trigger] call_ensures(
            S::deserialize,
            (&setting, text),
            result,
        )
}

/// `value` is what `setting` loaded from the default content and the user contents, least specific
/// first.
pub open spec fn loaded<S: Setting>(
    setting: S,
    default_value: S::FileContent,
    user_values: Seq<S::FileContent>,
    value: S::Value,
) -> bool {
    exists|values: &[&S::FileContent]|
        values@.unref() == user_values && #[trigger] call_ensures(
            S::load,
            (&setting, &default_value, values),
            value,
        )
}

/// `setting` always gives the same field name.
pub open spec fn fixed_name<S: Setting>(setting: S) -> bool {
    forall|a: Option<Seq<char>>, b: Option<Seq<char>>| #[trigger]
        named(setting, a) && #[trigger] named(setting, b) ==> a == b
}

/// What `setting` reads is a function of the text.
pub open spec fn pure_read<S: Setting>(setting: S) -> bool {
    forall|json: Seq<char>, a: Option<S::FileContent>, b: Option<S::FileContent>| #[trigger]
        reads(setting, json, a) && #[trigger] reads(setting, json, b) ==> a == b
}

/// What `setting` loads is a function of the contents.
pub open spec fn pure_load<S: Setting>(setting: S) -> bool {
    forall|
        default_value: S::FileContent,
        user_values: Seq<S::FileContent>,
        a: S::Value,
        b: S::Value,
    | #[trigger]
        loaded(setting, default_value, user_values, a) && #[trigger] loaded(
            setting,
            default_value,
            user_values,
            b,
        ) ==> a == b
}

/// What `codec` writes is a function of the content, and what it reads is one of the JSON value.
pub open spec fn pure_codec<Content, Value, K: JsonCodec<Content, Value>>(codec: K) -> bool {
    &&& forall|content: Content, a: JsonView, b: JsonView| #[trigger]
        encodes::<Content, Value, K>(codec, content, a) && #[trigger] encodes::<Content, Value, K>(
            codec,
            content,
            b,
        ) ==> a == b
    &&& forall|json: JsonView, a: Result<Value, String>, b: Result<Value, String>| #[trigger]
        decodes::<Content, Value, K>(codec, json, a) && #[trigger] decodes::<Content, Value, K>(
            codec,
            json,
            b,
        ) ==> a == b
}

/// The model of an optional path.
pub open spec fn path_view(path: Option<&SettingsPath>) -> Option<PathView> {
    match path {
        Some(p) => Some(p@),
        None => None,
    }
}

/// The value at the longest of the directories `path.take(0)`, .., `path.take(n)` that has one.
pub open spec fn nearest<V>(values: Map<PathView, V>, path: PathView, n: nat) -> Option<V>
    decreases n,
{
    if values.contains_key(path.take(n as int)) {
        Some(values[path.take(n as int)])
    } else if n == 0 {
        None
    } else {
        nearest(values, path, (n - 1) as nat)
    }
}

/// The value in effect at `path`, or outside of any directory: the one of the innermost directory
/// that has a value of its own, and the global one where no directory has.
pub open spec fn value_in_effect<V>(
    global_value: Option<V>,
    local_values: Map<PathView, V>,
    path: Option<PathView>,
) -> Option<V> {
    match path {
        Some(p) => match nearest(local_values, p, p.len()) {
            Some(value) => Some(value),
            None => global_value,
        },
        None => global_value,
    }
}

/// The value of `nearest` is the one at the longest prefix of `path` in `values`.
pub proof fn lemma_nearest<V>(values: Map<PathView, V>, path: PathView, n: nat, k: nat)
    requires
        k <= n,
        forall|m: int| k < m <= n ==> !values.contains_key(#[trigger] path.take(m)),
    ensures
        nearest(values, path, n) == nearest(values, path, k),
    decreases n,
{
    if k < n {
        assert(!values.contains_key(path.take(n as int)));
        lemma_nearest(values, path, (n - 1) as nat, k);
    }
}

/// The loaded values of one type of setting.
pub struct SettingValue<S: Setting> {
    pub setting: S,
    pub global_value: Option<S::Value>,
    pub local_values: PathMap<S::Value>,
}

impl<S: Setting> SettingValue<S> {
    /// The local values are in path order.
    pub open spec fn wf(&self) -> bool {
        self.local_values.wf()
    }

    /// A setting with no value yet.
    pub fn new(setting: S) -> (value: Self)
        ensures
            value.wf(),
            value.setting == setting,
            value.global_value is None,
            value.local_values@ == Map::<PathView, S::Value>::empty(),
    {
        SettingValue { setting, global_value: None, local_values: PathMap::new() }
    }

    /// Reads the setting's file content from JSON text.
    pub fn deserialize_setting(&self, json: &str) -> (result: Result<S::FileContent, String>)
        ensures
            call_ensures(S::deserialize, (&self.setting, json), result),
            reads(self.setting, json@, result.ok()),
    {
        self.setting.deserialize(json)
    }

    /// Combines the default content with the user contents into a value of the setting.
    pub fn load_setting(
        &self,
        default_value: &S::FileContent,
        user_values: &[&S::FileContent],
    ) -> (value: S::Value)
        ensures
            loaded(self.setting, *default_value, user_values@.unref(), value),
    {
        let value = self.setting.load(default_value, user_values);
        assert(call_ensures(S::load, (&self.setting, default_value, user_values), value));
        value
    }

    /// The value in effect at a path, if there is one.
    pub fn find_value(&self, path: Option<&SettingsPath>) -> (value: Option<&S::Value>)
        requires
            self.wf(),
        ensures
            value_in_effect(self.global_value, self.local_values@, path_view(path)) == (match value {
                Some(v) => Some(*v),
                None => None,
            }),
    {
        if let Some(target) = path {
            let mut i: usize = self.local_values.len();
            while i > 0
                invariant
                    self.wf(),
                    path == Some(target),
                    i <= self.local_values.paths().len(),
                    forall|j: int|
                        i <= j < self.local_values.paths().len() ==> !path_starts_with(
                            target@,
                            #[trigger] self.local_values.paths()[j],
                        ),
                decreases i,
            {
                i = i - 1;
                if target.starts_with(self.local_values.path_at(i)) {
                    let ghost paths = self.local_values.paths();
                    let ghost base = paths[i as int];
                    proof {
                        self.local_values.lemma_paths();
                        assert forall|m: int| base.len() < m <= target@.len() implies !self.local_values@.contains_key(
                            #[trigger] target@.take(m),
                        ) by {
                            let inner = target@.take(m);
                            if self.local_values@.contains_key(inner) {
                                assert(paths.contains(inner));
                                let k = paths.index_of(inner);
                                assert(paths[k] == inner);
                                assert(target@.take(inner.len() as int) =~= inner);
                                assert(inner.take(base.len() as int) =~= target@.take(base.len() as int));
                                lemma_prefix_less(inner, base);
                                lemma_path_trichotomy(inner, base);
                                assert(k <= i);
                                if k < i {
                                    assert(path_less(paths[k], paths[i as int]));
                                }
                            }
                        }
                        lemma_nearest(self.local_values@, target@, target@.len(), base.len());
                        assert(self.local_values@.contains_key(paths[i as int]));
                        assert(nearest(self.local_values@, target@, base.len()) == Some(
                            self.local_values@[base],
                        ));
                    }
                    return Some(self.local_values.value_at(i));
                }
            }
            proof {
                self.local_values.lemma_paths();
                assert forall|m: int| 0 <= m <= target@.len() implies !self.local_values@.contains_key(
                    #[trigger] target@.take(m),
                ) by {
                    let inner = target@.take(m);
                    if self.local_values@.contains_key(inner) {
                        assert(self.local_values.paths().contains(inner));
                        let k = self.local_values.paths().index_of(inner);
                        assert(self.local_values.paths()[k] == inner);
                        assert(target@.take(inner.len() as int) =~= inner);
                    }
                }
                lemma_nearest(self.local_values@, target@, target@.len(), 0);
            }
        }
        self.global_value.as_ref()
    }

    /// The value in effect at a path.
    pub fn value_for_path(&self, path: Option<&SettingsPath>) -> (value: &S::Value)
        requires
            self.wf(),
            value_in_effect(self.global_value, self.local_values@, path_view(path)) is Some,
        ensures
            value_in_effect(self.global_value, self.local_values@, path_view(path)) == Some(*value),
    {
        self.find_value(path).unwrap()
    }

    /// Replaces the value that applies outside of any directory with its own.
    pub fn set_global_value(&mut self, value: S::Value)
        ensures
            final(self).setting == old(self).setting,
            final(self).global_value == Some(value),
            final(self).local_values == old(self).local_values,
    {
        self.global_value = Some(value);
    }

    /// Replaces the value for one directory.
    pub fn set_local_value(&mut self, path: SettingsPath, value: S::Value)
        requires
            old(self).wf(),
        ensures
            final(self).wf(),
            final(self).setting == old(self).setting,
            final(self).global_value == old(self).global_value,
            final(self).local_values@ == old(self).local_values@.insert(path@, value),
    {
        self.local_values.insert(path, value);
    }

    /// Drops the value for one directory.
    pub fn remove_local_value(&mut self, path: &SettingsPath)
        requires
            old(self).wf(),
        ensures
            final(self).wf(),
            final(self).setting == old(self).setting,
            final(self).global_value == old(self).global_value,
            final(self).local_values@ == old(self).local_values@.remove(path@),
    {
        self.local_values.remove(path);
    }
}

} // verus!
