//! What the operations of a store do, in terms of the texts that they are given, the results that
//! they return, and the methods of the settings.
use vstd::prelude::*;

use crate::histories::{lemma_alike_call, lemma_same_entries, lemma_same_values, Call};
use crate::laws::{law_value_combines_all_layers, lemma_layer_directories};
use crate::model::{customizes, lemma_name_order, name_less, SettingsModel};
use crate::parse::{has_key_at, json_object, keys_ascending, lemma_members, members_of, str_less};
use crate::path::{PathView, SettingsPath};
use crate::reload::DeserializedSettingMap;
use crate::setting::{loaded, name_view, named, nearest, Setting, SettingValue};
use crate::store::{content_view, outcome_of, SettingsError, SettingsStore};

verus! {

/// What a setting has from a file is what it deserialized from its text.
proof fn lemma_content<S: Setting>(
    model: SettingsModel<S>,
    json: Seq<char>,
    members: Map<Seq<char>, Seq<char>>,
    map: Map<u64, S::FileContent>,
    index: int,
)
    requires
        model.valid(),
        model.is_setting_map(json, members, map),
        0 <= index < model.keys.len(),
    ensures
        match model.keys[index].0 {
            None => {
                exists|text: &str, read: Result<S::FileContent, String>| {
                    &&& #[trigger] call_ensures(S::deserialize, (&model.settings[model.keys[index].1], text), read)
                    &&& text@ == json
                    &&& match read {
                        Ok(content) => map.contains_key(model.keys[index].1) && map[model.keys[index].1] == content,
                        Err(_) => !map.contains_key(model.keys[index].1),
                    }
                }
            },
            Some(name) => if members.contains_key(name) {
                exists|text: &str, read: Result<S::FileContent, String>| {
                    &&& #[trigger] call_ensures(S::deserialize, (&model.settings[model.keys[index].1], text), read)
                    &&& text@ == members[name]
                    &&& match read {
                        Ok(content) => map.contains_key(model.keys[index].1) && map[model.keys[index].1] == content,
                        Err(_) => !map.contains_key(model.keys[index].1),
                    }
                }
            } else {
                !map.contains_key(model.keys[index].1)
            },
        },
{
    let (name, id) = model.keys[index];
    model.lemma_field_name(index);
    assert(model.settings.contains_key(id));
}

/// Only registered settings have content from a file.
proof fn lemma_no_other_content<S: Setting>(
    model: SettingsModel<S>,
    json: Seq<char>,
    members: Map<Seq<char>, Seq<char>>,
    map: Map<u64, S::FileContent>,
    id: u64,
)
    requires
        model.valid(),
        model.is_setting_map(json, members, map),
        map.contains_key(id),
    ensures
        model.settings.contains_key(id),
        exists|i: int| 0 <= i < model.keys.len() && (#[trigger] model.keys[i]).1 == id,
{
    assert(map.dom().contains(id));
    assert(model.settings.contains_key(id));
}

/// A global value is loaded from the default content and the user content.
proof fn lemma_global_value<S: Setting>(model: SettingsModel<S>, id: u64, value: S::Value)
    requires
        model.loads(id, None, value),
    ensures
        model.default_settings.contains_key(id),
        exists|values: &[&S::FileContent]| {
            &&& model.default_settings.contains_key(id)
            &&& #[trigger] call_ensures(
                S::load,
                (&model.settings[id], &model.default_settings[id], values),
                value,
            )
            &&& match model.user_settings {
                Some(user) => if user.contains_key(id) {
                    values@.len() == 1 && *values@[0] == user[id]
                } else {
                    values@.len() == 0
                },
                None => values@.len() == 0,
            }
        },
{
    let contents = model.user_values(id, None);
    assert(loaded(model.settings[id], model.default_settings[id], contents, value));
    let values = choose|values: &[&S::FileContent]|
        values@.unref() == contents && #[trigger] call_ensures(
            S::load,
            (&model.settings[id], &model.default_settings[id], values),
            value,
        );
    assert(values@.unref().len() == values@.len());
    assert(contents.len() > 0 ==> values@.unref()[0] == *values@[0]);
}

/// A value at a path is loaded from the default content, the user content and the contents of the
/// directories that customize the setting, outermost first.
proof fn lemma_local_value<S: Setting>(
    model: SettingsModel<S>,
    id: u64,
    path: PathView,
    value: S::Value,
)
    requires
        model.loads(id, Some(path), value),
    ensures
        model.default_settings.contains_key(id),
        exists|values: &[&S::FileContent], directories: Seq<PathView>| {
            let first: int = if model.user_settings is Some && model.user_settings->0.contains_key(id) {
                1
            } else {
                0
            };
            &&& model.default_settings.contains_key(id)
            &&& #[trigger] call_ensures(
                S::load,
                (&model.settings[id], &model.default_settings[id], values),
                value,
            )
            &&& values@.len() == first + #[trigger] directories.len()
            &&& first == 1 ==> *values@[0] == model.user_settings->0[id]
            &&& forall|i: int|
                0 <= i < directories.len() ==> {
                    let directory = #[trigger] directories[i];
                    &&& directory.len() <= path.len() && directory == path.take(directory.len() as int)
                    &&& model.local_settings.contains_key(directory)
                    &&& model.local_settings[directory].contains_key(id)
                    &&& *values@[first + i] == model.local_settings[directory][id]
                }
            &&& forall|i: int, j: int|
                0 <= i < j < directories.len() ==> (#[trigger] directories[i]).len() < (
                #[trigger] directories[j]).len()
            &&& forall|k: int|
                0 <= k <= path.len() && model.local_settings.contains_key(#[trigger] path.take(k))
                    && model.local_settings[path.take(k)].contains_key(id) ==> directories.contains(path.take(k))
        },
        model.local_settings.contains_key(path) && model.local_settings[path].contains_key(id) ==> (
            exists|values: &[&S::FileContent], directories: Seq<PathView>| {
                let first: int = if model.user_settings is Some && model.user_settings->0.contains_key(id) {
                    1
                } else {
                    0
                };
                &&& model.default_settings.contains_key(id)
                &&& #[trigger] call_ensures(
                    S::load,
                    (&model.settings[id], &model.default_settings[id], values),
                    value,
                )
                &&& values@.len() == first + #[trigger] directories.len()
                &&& first == 1 ==> *values@[0] == model.user_settings->0[id]
                &&& directories.len() > 0 && directories[directories.len() - 1] == path
                &&& forall|i: int|
                    0 <= i < directories.len() ==> {
                        let directory = #[trigger] directories[i];
                        &&& directory.len() <= path.len() && directory == path.take(directory.len() as int)
                        &&& model.local_settings.contains_key(directory)
                        &&& model.local_settings[directory].contains_key(id)
                        &&& *values@[first + i] == model.local_settings[directory][id]
                    }
                &&& forall|i: int, j: int|
                    0 <= i < j < directories.len() ==> (#[trigger] directories[i]).len() < (
                    #[trigger] directories[j]).len()
                &&& forall|k: int|
                    0 <= k <= path.len() && model.local_settings.contains_key(#[trigger] path.take(k))
                        && model.local_settings[path.take(k)].contains_key(id) ==> directories.contains(path.take(k))
            }),
{
    let local = model.local_settings;
    let contents = model.user_values(id, Some(path));
    let user = model.user_layer(id);
    let directories = lemma_layer_directories(local, id, path, path.len() + 1);
    let inner = directories.map_values(|directory: PathView| local[directory][id]);
    assert(contents == user + inner);
    let values = choose|values: &[&S::FileContent]|
        values@.unref() == contents && #[trigger] call_ensures(
            S::load,
            (&model.settings[id], &model.default_settings[id], values),
            value,
        );
    assert(values@.unref().len() == values@.len());
    assert(contents.len() > 0 ==> values@.unref()[0] == *values@[0]);
    assert forall|i: int| 0 <= i < directories.len() implies *values@[user.len() + i]
        == local[#[trigger] directories[i]][id] by {
        assert(values@.unref()[user.len() + i] == inner[i]);
    }
    assert forall|k: int|
        0 <= k <= path.len() && local.contains_key(#[trigger] path.take(k)) && local[path.take(k)].contains_key(id)
        implies directories.contains(path.take(k)) by {
        assert(customizes(local, path.take(k), id));
        assert(path.take(path.take(k).len() as int) =~= path.take(k));
    }
    assert(values@.len() == user.len() + directories.len());
    if customizes(local, path, id) {
        assert(path.take(path.len() as int) =~= path);
        assert(directories.contains(path));
        let k = directories.index_of(path);
        if k < directories.len() - 1 {
            assert(directories[k].len() < directories[directories.len() - 1].len());
        }
    }
}

/// Setting the default settings hands every setting the text of its field, or the whole text where it has
/// no field name, and keeps exactly what the setting deserialized from it: a setting has content
/// from the file if its field is there and it could be deserialized, whatever the text is, and only
/// registered settings have content.
pub proof fn law_default_contents_are_deserialized<S: Setting>(
    store: &mut SettingsStore<S>,
    json: &str,
    members: Map<Seq<char>, Seq<char>>,
    result: Result<(), SettingsError>,
    index: int,
    other: u64,
)
    requires
        old(store).wf(),
        call_ensures(SettingsStore::<S>::set_default_settings, (store, json), result),
        json_object(json@) == Some(members),
        0 <= index < old(store)@.keys.len(),
    ensures
        match old(store)@.keys[index].0 {
            None => {
                exists|text: &str, read: Result<S::FileContent, String>| {
                    &&& #[trigger] call_ensures(S::deserialize, (&old(store)@.settings[old(store)@.keys[index].1], text), read)
                    &&& text@ == json@
                    &&& match read {
                        Ok(content) => final(store)@.default_settings.contains_key(old(store)@.keys[index].1) && final(store)@.default_settings[old(store)@.keys[index].1] == content,
                        Err(_) => !final(store)@.default_settings.contains_key(old(store)@.keys[index].1),
                    }
                }
            },
            Some(name) => if members.contains_key(name) {
                exists|text: &str, read: Result<S::FileContent, String>| {
                    &&& #[trigger] call_ensures(S::deserialize, (&old(store)@.settings[old(store)@.keys[index].1], text), read)
                    &&& text@ == members[name]
                    &&& match read {
                        Ok(content) => final(store)@.default_settings.contains_key(old(store)@.keys[index].1) && final(store)@.default_settings[old(store)@.keys[index].1] == content,
                        Err(_) => !final(store)@.default_settings.contains_key(old(store)@.keys[index].1),
                    }
                }
            } else {
                !final(store)@.default_settings.contains_key(old(store)@.keys[index].1)
            },
        },
        final(store)@.default_settings.contains_key(other) ==> exists|i: int|
            0 <= i < old(store)@.keys.len() && (#[trigger] old(store)@.keys[i]).1 == other,
{
    let before = old(store)@;
    let after = final(store)@;
    let map = final(store)@.default_settings;
    lemma_content(before, json@, members, map, index);
    if map.contains_key(other) {
        lemma_no_other_content(before, json@, members, map, other);
    }
}

/// Setting the user settings hands every setting the text of its field, or the whole text where it has
/// no field name, and keeps exactly what the setting deserialized from it: a setting has content
/// from the file if its field is there and it could be deserialized, whatever the text is, and only
/// registered settings have content.
pub proof fn law_user_contents_are_deserialized<S: Setting>(
    store: &mut SettingsStore<S>,
    json: &str,
    members: Map<Seq<char>, Seq<char>>,
    result: Result<(), SettingsError>,
    index: int,
    other: u64,
)
    requires
        old(store).wf(),
        call_ensures(SettingsStore::<S>::set_user_settings, (store, json), result),
        json_object(json@) == Some(members),
        0 <= index < old(store)@.keys.len(),
    ensures
        final(store)@.user_settings is Some,
        match old(store)@.keys[index].0 {
            None => {
                exists|text: &str, read: Result<S::FileContent, String>| {
                    &&& #[trigger] call_ensures(S::deserialize, (&old(store)@.settings[old(store)@.keys[index].1], text), read)
                    &&& text@ == json@
                    &&& match read {
                        Ok(content) => final(store)@.user_settings->0.contains_key(old(store)@.keys[index].1) && final(store)@.user_settings->0[old(store)@.keys[index].1] == content,
                        Err(_) => !final(store)@.user_settings->0.contains_key(old(store)@.keys[index].1),
                    }
                }
            },
            Some(name) => if members.contains_key(name) {
                exists|text: &str, read: Result<S::FileContent, String>| {
                    &&& #[trigger] call_ensures(S::deserialize, (&old(store)@.settings[old(store)@.keys[index].1], text), read)
                    &&& text@ == members[name]
                    &&& match read {
                        Ok(content) => final(store)@.user_settings->0.contains_key(old(store)@.keys[index].1) && final(store)@.user_settings->0[old(store)@.keys[index].1] == content,
                        Err(_) => !final(store)@.user_settings->0.contains_key(old(store)@.keys[index].1),
                    }
                }
            } else {
                !final(store)@.user_settings->0.contains_key(old(store)@.keys[index].1)
            },
        },
        final(store)@.user_settings->0.contains_key(other) ==> exists|i: int|
            0 <= i < old(store)@.keys.len() && (#[trigger] old(store)@.keys[i]).1 == other,
{
    let before = old(store)@;
    let after = final(store)@;
    let map = final(store)@.user_settings->0;
    lemma_content(before, json@, members, map, index);
    if map.contains_key(other) {
        lemma_no_other_content(before, json@, members, map, other);
    }
}

/// Setting the local settings hands every setting the text of its field, or the whole text where it has
/// no field name, and keeps exactly what the setting deserialized from it: a setting has content
/// from the file if its field is there and it could be deserialized, whatever the text is, and only
/// registered settings have content.
pub proof fn law_local_contents_are_deserialized<S: Setting>(
    store: &mut SettingsStore<S>,
    path: SettingsPath,
    json: &str,
    members: Map<Seq<char>, Seq<char>>,
    result: Result<(), SettingsError>,
    index: int,
    other: u64,
)
    requires
        old(store).wf(),
        call_ensures(SettingsStore::<S>::set_local_settings, (store, path, Some(json)), result),
        json_object(json@) == Some(members),
        0 <= index < old(store)@.keys.len(),
    ensures
        final(store)@.local_settings.contains_key(path@),
        match old(store)@.keys[index].0 {
            None => {
                exists|text: &str, read: Result<S::FileContent, String>| {
                    &&& #[trigger] call_ensures(S::deserialize, (&old(store)@.settings[old(store)@.keys[index].1], text), read)
                    &&& text@ == json@
                    &&& match read {
                        Ok(content) => final(store)@.local_settings[path@].contains_key(old(store)@.keys[index].1) && final(store)@.local_settings[path@][old(store)@.keys[index].1] == content,
                        Err(_) => !final(store)@.local_settings[path@].contains_key(old(store)@.keys[index].1),
                    }
                }
            },
            Some(name) => if members.contains_key(name) {
                exists|text: &str, read: Result<S::FileContent, String>| {
                    &&& #[trigger] call_ensures(S::deserialize, (&old(store)@.settings[old(store)@.keys[index].1], text), read)
                    &&& text@ == members[name]
                    &&& match read {
                        Ok(content) => final(store)@.local_settings[path@].contains_key(old(store)@.keys[index].1) && final(store)@.local_settings[path@][old(store)@.keys[index].1] == content,
                        Err(_) => !final(store)@.local_settings[path@].contains_key(old(store)@.keys[index].1),
                    }
                }
            } else {
                !final(store)@.local_settings[path@].contains_key(old(store)@.keys[index].1)
            },
        },
        final(store)@.local_settings[path@].contains_key(other) ==> exists|i: int|
            0 <= i < old(store)@.keys.len() && (#[trigger] old(store)@.keys[i]).1 == other,
{
    let before = old(store)@;
    let after = final(store)@;
    let map = final(store)@.local_settings[path@];
    lemma_content(before, json@, members, map, index);
    if map.contains_key(other) {
        lemma_no_other_content(before, json@, members, map, other);
    }
}

/// Reading a file succeeds if and only if its text is a JSON object. Every setting is then handed the
/// text of its field, or the whole text where it has no field name, and the map holds exactly what
/// the setting deserialized from it.
pub proof fn law_setting_map_holds_what_was_deserialized<S: Setting>(
    store: &SettingsStore<S>,
    json: &str,
    result: Result<DeserializedSettingMap<S::FileContent>, SettingsError>,
    index: int,
    other: u64,
)
    requires
        store.wf(),
        call_ensures(SettingsStore::<S>::load_setting_map, (store, json), result),
        0 <= index < store@.keys.len(),
    ensures
        match json_object(json@) {
            Some(members) => {
                &&& result is Ok
                &&&
                    match store@.keys[index].0 {
                        None => {
                            exists|text: &str, read: Result<S::FileContent, String>| {
                                &&& #[trigger] call_ensures(S::deserialize, (&store@.settings[store@.keys[index].1], text), read)
                                &&& text@ == json@
                                &&& match read {
                                    Ok(content) => result->Ok_0@.contains_key(store@.keys[index].1) && result->Ok_0@[store@.keys[index].1] == content,
                                    Err(_) => !result->Ok_0@.contains_key(store@.keys[index].1),
                                }
                            }
                        },
                        Some(name) => if members.contains_key(name) {
                            exists|text: &str, read: Result<S::FileContent, String>| {
                                &&& #[trigger] call_ensures(S::deserialize, (&store@.settings[store@.keys[index].1], text), read)
                                &&& text@ == members[name]
                                &&& match read {
                                    Ok(content) => result->Ok_0@.contains_key(store@.keys[index].1) && result->Ok_0@[store@.keys[index].1] == content,
                                    Err(_) => !result->Ok_0@.contains_key(store@.keys[index].1),
                                }
                            }
                        } else {
                            !result->Ok_0@.contains_key(store@.keys[index].1)
                        },
                    }
                &&& result->Ok_0@.contains_key(other) ==> exists|i: int|
                    0 <= i < store@.keys.len() && (#[trigger] store@.keys[i]).1 == other
            },
            None => result matches Err(SettingsError::InvalidJson(_)),
        },
{
    if let Some(members) = json_object(json@) {
        let map = result->Ok_0@;
        lemma_content(store@, json@, members, map, index);
        if map.contains_key(other) {
            lemma_no_other_content(store@, json@, members, map, other);
        }
    }
}

/// The missing names are those of the keys without default content, in order.
proof fn lemma_missing_keys<S: Setting>(model: SettingsModel<S>, n: int) -> (indices: Seq<int>)
    requires
        0 <= n <= model.keys.len(),
    ensures
        model.keys.take(n).filter(
            |key: (Option<Seq<char>>, u64)| !model.default_settings.contains_key(key.1),
        ).map_values(|key: (Option<Seq<char>>, u64)| key.0) == indices.map_values(
            |i: int| model.keys[i].0,
        ),
        forall|j: int|
            0 <= j < indices.len() ==> 0 <= #[trigger] indices[j] < n && !model.default_settings.contains_key(
                model.keys[indices[j]].1,
            ),
        forall|i: int, j: int| 0 <= i < j < indices.len() ==> #[trigger] indices[i] < #[trigger] indices[j],
        forall|i: int|
            0 <= i < n && !model.default_settings.contains_key((#[trigger] model.keys[i]).1)
                ==> indices.contains(i),
    decreases n,
{
    let missing = |key: (Option<Seq<char>>, u64)| !model.default_settings.contains_key(key.1);
    let name = |key: (Option<Seq<char>>, u64)| key.0;
    let at = |i: int| model.keys[i].0;
    reveal(Seq::filter);
    if n == 0 {
        let indices = Seq::<int>::empty();
        assert(model.keys.take(0) =~= Seq::empty());
        assert(model.keys.take(0).filter(missing).map_values(name) =~= indices.map_values(at));
        indices
    } else {
        let outer = lemma_missing_keys(model, n - 1);
        let keys = model.keys.take(n);
        assert(keys.drop_last() =~= model.keys.take(n - 1));
        assert(keys.last() == model.keys[n - 1]);
        let indices = if missing(keys.last()) {
            outer.push(n - 1)
        } else {
            outer
        };
        let before = keys.drop_last().filter(missing);
        assert(before.map_values(name) == outer.map_values(at));
        assert(before.map_values(name).len() == before.len());
        assert forall|j: int| 0 <= j < outer.len() implies (#[trigger] before[j]).0
            == model.keys[outer[j]].0 by {
            assert(before.map_values(name)[j] == outer.map_values(at)[j]);
        }
        assert(keys.filter(missing).map_values(name) =~= indices.map_values(at));
        assert forall|i: int|
            0 <= i < n && !model.default_settings.contains_key((#[trigger] model.keys[i]).1) implies
            indices.contains(i) by {
            if i < n - 1 {
                assert(outer.contains(i));
                let j = outer.index_of(i);
                assert(indices[j] == i);
            } else {
                assert(indices[outer.len() as int] == i);
            }
        }
        indices
    }
}

/// Setting the default settings fails where the text is no JSON object, and then changes nothing.
/// Otherwise it succeeds if every registered setting has content in the file, and else names exactly
/// the settings that have none, at least one, in the order of the keys, and changes no value. Other
/// files and the registered settings stay as they are.
pub proof fn law_default_settings_outcomes<S: Setting>(
    store: &mut SettingsStore<S>,
    json: &str,
    result: Result<(), SettingsError>,
)
    requires
        old(store).wf(),
        call_ensures(SettingsStore::<S>::set_default_settings, (store, json), result),
    ensures
        final(store)@.keys == old(store)@.keys,
        final(store)@.settings == old(store)@.settings,
        final(store)@.user_settings == old(store)@.user_settings,
        final(store)@.local_settings == old(store)@.local_settings,
        match json_object(json@) {
            None => result matches Err(SettingsError::InvalidJson(_)) && final(store)@ == old(store)@,
            Some(_) => {
                &&& result is Ok <==> forall|i: int|
                    0 <= i < old(store)@.keys.len() ==> final(store)@.default_settings.contains_key(
                        (#[trigger] old(store)@.keys[i]).1,
                    )
                &&& result is Err ==> {
                    &&& result->Err_0 is MissingFields
                    &&& final(store)@.global_values == old(store)@.global_values
                    &&& final(store)@.local_values == old(store)@.local_values
                    &&& exists|indices: Seq<int>| {
                        let names = result->Err_0->MissingFields_0@;
                        &&& names.len() == #[trigger] indices.len() && names.len() > 0
                        &&& forall|j: int|
                            0 <= j < names.len() ==> {
                                let key = old(store)@.keys[#[trigger] indices[j]];
                                &&& 0 <= indices[j] < old(store)@.keys.len()
                                &&& !final(store)@.default_settings.contains_key(key.1)
                                &&& match names[j] {
                                    Some(name) => key.0 == Some(name@),
                                    None => key.0 is None,
                                }
                            }
                        &&& forall|i: int, j: int|
                            0 <= i < j < indices.len() ==> #[trigger] indices[i] < #[trigger] indices[j]
                        &&& forall|i: int|
                            0 <= i < old(store)@.keys.len() && !final(store)@.default_settings.contains_key(
                                (#[trigger] old(store)@.keys[i]).1,
                            ) ==> indices.contains(i)
                    }
                }
            },
        },
{
    let before = old(store)@;
    let after = final(store)@;
    if let Some(members) = json_object(json@) {
        let full = forall|i: int|
            0 <= i < before.keys.len() ==> after.default_settings.contains_key(
                (#[trigger] before.keys[i]).1,
            );
        if full {
            assert forall|id: u64| before.settings.contains_key(id) implies after.default_settings.contains_key(
                id,
            ) by {
                let i = choose|i: int| 0 <= i < before.keys.len() && (#[trigger] before.keys[i]).1 == id;
                assert(after.default_settings.contains_key(before.keys[i].1));
            }
            assert(after.default_settings.dom() =~= before.settings.dom());
        } else {
            let i = choose|i: int|
                0 <= i < before.keys.len() && !after.default_settings.contains_key(
                    (#[trigger] before.keys[i]).1,
                );
            assert(before.settings.dom().contains(before.keys[i].1));
            assert(!after.default_settings.dom().contains(before.keys[i].1));
            let names = result->Err_0->MissingFields_0@;
            let indices = lemma_missing_keys(after, after.keys.len() as int);
            assert(after.keys.take(after.keys.len() as int) =~= after.keys);
            let views = names.map_values(|name: Option<&'static str>| name_view(name));
            let listed = indices.map_values(|i: int| after.keys[i].0);
            assert(views == after.missing_names());
            assert(views == listed);
            assert(views.len() == names.len() && listed.len() == indices.len());
            assert(indices.contains(i));
            assert forall|j: int| 0 <= j < names.len() implies match names[j] {
                Some(name) => before.keys[#[trigger] indices[j]].0 == Some(name@),
                None => before.keys[indices[j]].0 is None,
            } by {
                assert(views[j] == name_view(names[j]));
                assert(listed[j] == after.keys[indices[j]].0);
            }
        }
    }
}

/// Default settings that are a JSON object with a text for every registered setting, which the
/// setting can deserialize, are accepted, whatever other members the object has, and every registered
/// setting then has a global value.
pub proof fn law_complete_defaults_are_accepted<S: Setting>(
    store: &mut SettingsStore<S>,
    json: &str,
    members: Map<Seq<char>, Seq<char>>,
    result: Result<(), SettingsError>,
    id: u64,
)
    requires
        old(store).wf(),
        call_ensures(SettingsStore::<S>::set_default_settings, (store, json), result),
        json_object(json@) == Some(members),
        forall|i: int|
            0 <= i < old(store)@.keys.len() ==> ((#[trigger] old(store)@.keys[i]).0 matches Some(name)
                ==> members.contains_key(name)),
        forall|i: int, text: &str, read: Result<S::FileContent, String>|
            0 <= i < old(store)@.keys.len() && #[trigger] call_ensures(
                S::deserialize,
                (&old(store)@.settings[old(store)@.keys[i].1], text),
                read,
            ) && text@ == (match old(store)@.keys[i].0 {
                Some(name) => members[name],
                None => json@,
            }) ==> read is Ok,
    ensures
        result is Ok,
        old(store)@.settings.contains_key(id) ==> final(store)@.global_values.contains_key(id),
{
    let before = old(store)@;
    let after = final(store)@;
    let map = after.default_settings;
    assert forall|i: int| 0 <= i < before.keys.len() implies map.contains_key((#[trigger] before.keys[i]).1) by {
        lemma_content(before, json@, members, map, i);
    }
    law_default_settings_outcomes(store, json, result);
    let model = SettingsModel { default_settings: map, ..before };
    if before.settings.contains_key(id) {
        assert(model.settings.contains_key(id));
        assert(after.global_values.get(id) is Some);
    }
}

/// Once the default settings have been set, the global value of every registered setting is what it
/// loaded from its default content and, where the user settings have content for it, that content.
pub proof fn law_default_settings_load_every_global_value<S: Setting>(
    store: &mut SettingsStore<S>,
    json: &str,
    result: Result<(), SettingsError>,
    id: u64,
)
    requires
        old(store).wf(),
        call_ensures(SettingsStore::<S>::set_default_settings, (store, json), result),
        result is Ok,
        old(store)@.settings.contains_key(id),
    ensures
        final(store)@.global_values.contains_key(id),
        exists|values: &[&S::FileContent]| {
            &&& final(store)@.default_settings.contains_key(id)
            &&& #[trigger] call_ensures(
                S::load,
                (&final(store)@.settings[id], &final(store)@.default_settings[id], values),
                final(store)@.global_values[id],
            )
            &&& match final(store)@.user_settings {
                Some(user) => if user.contains_key(id) {
                    values@.len() == 1 && *values@[0] == user[id]
                } else {
                    values@.len() == 0
                },
                None => values@.len() == 0,
            }
        },
{
    let before = old(store)@;
    let after = final(store)@;
    let model = SettingsModel { default_settings: after.default_settings, ..before };
    assert(model.settings.contains_key(id));
    assert(after.global_values.get(id) is Some);
    lemma_global_value(model, id, after.global_values[id]);
}

/// Once the default settings have been set, the local value of every setting for a directory that
/// customizes it is what the setting loaded from its default content, the user content where there is
/// one, and the contents of all the directories on the path that customize it, outermost first and
/// ending in the directory itself. No other local value changes.
pub proof fn law_default_settings_load_every_local_value<S: Setting>(
    store: &mut SettingsStore<S>,
    json: &str,
    result: Result<(), SettingsError>,
    id: u64,
    q: PathView,
)
    requires
        old(store).wf(),
        call_ensures(SettingsStore::<S>::set_default_settings, (store, json), result),
        result is Ok,
        old(store)@.settings.contains_key(id),
    ensures
        if final(store)@.local_settings.contains_key(q) && final(store)@.local_settings[q].contains_key(id) {
            &&& final(store)@.local_values[id].contains_key(q)
            &&&
                exists|values: &[&S::FileContent], directories: Seq<PathView>| {
                    let first: int = if final(store)@.user_settings is Some && final(store)@.user_settings->0.contains_key(id) {
                        1
                    } else {
                        0
                    };
                    &&& final(store)@.default_settings.contains_key(id)
                    &&& #[trigger] call_ensures(
                        S::load,
                        (&final(store)@.settings[id], &final(store)@.default_settings[id], values),
                        final(store)@.local_values[id][q],
                    )
                    &&& values@.len() == first + #[trigger] directories.len()
                    &&& first == 1 ==> *values@[0] == final(store)@.user_settings->0[id]
                    &&& directories.len() > 0 && directories[directories.len() - 1] == q
                    &&& forall|i: int|
                        0 <= i < directories.len() ==> {
                            let directory = #[trigger] directories[i];
                            &&& directory.len() <= q.len() && directory == q.take(directory.len() as int)
                            &&& final(store)@.local_settings.contains_key(directory)
                            &&& final(store)@.local_settings[directory].contains_key(id)
                            &&& *values@[first + i] == final(store)@.local_settings[directory][id]
                        }
                    &&& forall|i: int, j: int|
                        0 <= i < j < directories.len() ==> (#[trigger] directories[i]).len() < (
                        #[trigger] directories[j]).len()
                    &&& forall|k: int|
                        0 <= k <= q.len() && final(store)@.local_settings.contains_key(#[trigger] q.take(k))
                            && final(store)@.local_settings[q.take(k)].contains_key(id) ==> directories.contains(q.take(k))
                }
        } else {
            &&& final(store)@.local_values[id].contains_key(q) == old(store)@.local_values[id].contains_key(q)
            &&& old(store)@.local_values[id].contains_key(q) ==> final(store)@.local_values[id][q]
                == old(store)@.local_values[id][q]
        },
{
    let before = old(store)@;
    let after = final(store)@;
    let model = SettingsModel { default_settings: after.default_settings, ..before };
    assert(model.settings.contains_key(id));
    if model.reloads(id, None, q) {
        assert(after.local_values[id].contains_key(q));
        lemma_local_value(model, id, q, after.local_values[id][q]);
    }
}

/// Setting the user settings fails exactly where the text is no JSON object, and then changes nothing.
/// Other files and the registered settings stay as they are.
pub proof fn law_user_settings_outcomes<S: Setting>(
    store: &mut SettingsStore<S>,
    json: &str,
    result: Result<(), SettingsError>,
)
    requires
        old(store).wf(),
        call_ensures(SettingsStore::<S>::set_user_settings, (store, json), result),
    ensures
        final(store)@.keys == old(store)@.keys,
        final(store)@.settings == old(store)@.settings,
        final(store)@.default_settings == old(store)@.default_settings,
        final(store)@.local_settings == old(store)@.local_settings,
        match json_object(json@) {
            None => result matches Err(SettingsError::InvalidJson(_)) && final(store)@ == old(store)@,
            Some(_) => result is Ok && final(store)@.user_settings is Some,
        },
{

}

/// Once the user settings have been set, the global value of every setting that the file has content
/// for is what the setting loaded from its default content and that content, whatever else the file
/// holds. That of a setting that only the previous file had content for is loaded from the default
/// content alone, and all others stay as they are.
pub proof fn law_user_settings_reach_the_global_value<S: Setting>(
    store: &mut SettingsStore<S>,
    json: &str,
    result: Result<(), SettingsError>,
    id: u64,
)
    requires
        old(store).wf(),
        call_ensures(SettingsStore::<S>::set_user_settings, (store, json), result),
        result is Ok,
        old(store)@.settings.contains_key(id),
    ensures
        if final(store)@.user_settings->0.contains_key(id) || (old(store)@.user_settings is Some
            && old(store)@.user_settings->0.contains_key(id)) {
            &&& final(store)@.global_values.contains_key(id)
            &&&
                exists|values: &[&S::FileContent]| {
                    &&& final(store)@.default_settings.contains_key(id)
                    &&& #[trigger] call_ensures(
                        S::load,
                        (&final(store)@.settings[id], &final(store)@.default_settings[id], values),
                        final(store)@.global_values[id],
                    )
                    &&& match final(store)@.user_settings {
                        Some(user) => if user.contains_key(id) {
                            values@.len() == 1 && *values@[0] == user[id]
                        } else {
                            values@.len() == 0
                        },
                        None => values@.len() == 0,
                    }
                }
        } else {
            &&& final(store)@.global_values.contains_key(id) == old(store)@.global_values.contains_key(id)
            &&& old(store)@.global_values.contains_key(id) ==> final(store)@.global_values[id] == old(store)@.global_values[id]
        },
{
    let before = old(store)@;
    let after = final(store)@;
    let model = SettingsModel { user_settings: after.user_settings, ..before };
    assert(model.settings.contains_key(id));
    if after.user_types().union(before.user_types()).contains(id) {
        lemma_global_value(model, id, after.global_values[id]);
    } else {
        assert(after.global_values.get(id) == before.global_values.get(id));
    }
}

/// Once the user settings have been set, the local value of a setting that the file or the previous
/// one has content for, for a directory that customizes it, is what the setting loaded from its
/// default content, the user content where there is one, and the contents of all the directories on
/// the path that customize it, outermost first and ending in the directory itself. No other local
/// value changes.
pub proof fn law_user_settings_reach_every_local_value<S: Setting>(
    store: &mut SettingsStore<S>,
    json: &str,
    result: Result<(), SettingsError>,
    id: u64,
    q: PathView,
)
    requires
        old(store).wf(),
        call_ensures(SettingsStore::<S>::set_user_settings, (store, json), result),
        result is Ok,
        old(store)@.settings.contains_key(id),
    ensures
        if (final(store)@.user_settings->0.contains_key(id) || (old(store)@.user_settings is Some
            && old(store)@.user_settings->0.contains_key(id))) && final(store)@.local_settings.contains_key(q) && final(store)@.local_settings[q].contains_key(id) {
            &&& final(store)@.local_values[id].contains_key(q)
            &&&
                exists|values: &[&S::FileContent], directories: Seq<PathView>| {
                    let first: int = if final(store)@.user_settings is Some && final(store)@.user_settings->0.contains_key(id) {
                        1
                    } else {
                        0
                    };
                    &&& final(store)@.default_settings.contains_key(id)
                    &&& #[trigger] call_ensures(
                        S::load,
                        (&final(store)@.settings[id], &final(store)@.default_settings[id], values),
                        final(store)@.local_values[id][q],
                    )
                    &&& values@.len() == first + #[trigger] directories.len()
                    &&& first == 1 ==> *values@[0] == final(store)@.user_settings->0[id]
                    &&& directories.len() > 0 && directories[directories.len() - 1] == q
                    &&& forall|i: int|
                        0 <= i < directories.len() ==> {
                            let directory = #[trigger] directories[i];
                            &&& directory.len() <= q.len() && directory == q.take(directory.len() as int)
                            &&& final(store)@.local_settings.contains_key(directory)
                            &&& final(store)@.local_settings[directory].contains_key(id)
                            &&& *values@[first + i] == final(store)@.local_settings[directory][id]
                        }
                    &&& forall|i: int, j: int|
                        0 <= i < j < directories.len() ==> (#[trigger] directories[i]).len() < (
                        #[trigger] directories[j]).len()
                    &&& forall|k: int|
                        0 <= k <= q.len() && final(store)@.local_settings.contains_key(#[trigger] q.take(k))
                            && final(store)@.local_settings[q.take(k)].contains_key(id) ==> directories.contains(q.take(k))
                }
        } else {
            &&& final(store)@.local_values[id].contains_key(q) == old(store)@.local_values[id].contains_key(q)
            &&& old(store)@.local_values[id].contains_key(q) ==> final(store)@.local_values[id][q]
                == old(store)@.local_values[id][q]
        },
{
    let before = old(store)@;
    let after = final(store)@;
    let model = SettingsModel { user_settings: after.user_settings, ..before };
    assert(model.settings.contains_key(id));
    if after.user_types().union(before.user_types()).contains(id) && model.reloads(id, None, q) {
        assert(after.local_values[id].contains_key(q));
        lemma_local_value(model, id, q, after.local_values[id][q]);
    }
}

/// Setting the local settings of a directory fails exactly where the text is no JSON object, and then
/// changes nothing. Other files, the registered settings and the global values stay as they are.
pub proof fn law_local_settings_outcomes<S: Setting>(
    store: &mut SettingsStore<S>,
    path: SettingsPath,
    json: &str,
    result: Result<(), SettingsError>,
)
    requires
        old(store).wf(),
        call_ensures(SettingsStore::<S>::set_local_settings, (store, path, Some(json)), result),
    ensures
        final(store)@.keys == old(store)@.keys,
        final(store)@.settings == old(store)@.settings,
        final(store)@.default_settings == old(store)@.default_settings,
        final(store)@.user_settings == old(store)@.user_settings,
        final(store)@.global_values == old(store)@.global_values,
        match json_object(json@) {
            None => result matches Err(SettingsError::InvalidJson(_)) && final(store)@ == old(store)@,
            Some(_) => {
                &&& result is Ok
                &&& final(store)@.local_settings.contains_key(path@)
                &&& final(store)@.local_settings == old(store)@.local_settings.insert(
                    path@,
                    final(store)@.local_settings[path@],
                )
            },
        },
{
    let before = old(store)@;
    let after = final(store)@;
    if json_object(json@) is Some {
        let settings = after.local_settings[path@];
        let model = SettingsModel {
            local_settings: before.local_settings.insert(path@, settings),
            ..before
        };
        lemma_same_globals(model, settings.dom(), path@, after);
    }
}

/// Once the local settings of a directory have been set, the local value of a setting that the file has
/// content for, for the directory itself or one inside it that customizes the setting, is what the
/// setting loaded from its default content, the user content where there is one, and the contents of
/// all the directories on the path that customize it, outermost first and ending in the directory
/// itself. No other local value changes.
pub proof fn law_local_settings_reach_the_directories_inside<S: Setting>(
    store: &mut SettingsStore<S>,
    path: SettingsPath,
    json: &str,
    result: Result<(), SettingsError>,
    id: u64,
    q: PathView,
)
    requires
        old(store).wf(),
        call_ensures(SettingsStore::<S>::set_local_settings, (store, path, Some(json)), result),
        result is Ok,
        old(store)@.settings.contains_key(id),
    ensures
        if final(store)@.local_settings[path@].contains_key(id) && path@.len() <= q.len() && q.take(path@.len() as int) == path@ && final(store)@.local_settings.contains_key(q) && final(store)@.local_settings[q].contains_key(id) {
            &&& final(store)@.local_values[id].contains_key(q)
            &&&
                exists|values: &[&S::FileContent], directories: Seq<PathView>| {
                    let first: int = if final(store)@.user_settings is Some && final(store)@.user_settings->0.contains_key(id) {
                        1
                    } else {
                        0
                    };
                    &&& final(store)@.default_settings.contains_key(id)
                    &&& #[trigger] call_ensures(
                        S::load,
                        (&final(store)@.settings[id], &final(store)@.default_settings[id], values),
                        final(store)@.local_values[id][q],
                    )
                    &&& values@.len() == first + #[trigger] directories.len()
                    &&& first == 1 ==> *values@[0] == final(store)@.user_settings->0[id]
                    &&& directories.len() > 0 && directories[directories.len() - 1] == q
                    &&& forall|i: int|
                        0 <= i < directories.len() ==> {
                            let directory = #[trigger] directories[i];
                            &&& directory.len() <= q.len() && directory == q.take(directory.len() as int)
                            &&& final(store)@.local_settings.contains_key(directory)
                            &&& final(store)@.local_settings[directory].contains_key(id)
                            &&& *values@[first + i] == final(store)@.local_settings[directory][id]
                        }
                    &&& forall|i: int, j: int|
                        0 <= i < j < directories.len() ==> (#[trigger] directories[i]).len() < (
                        #[trigger] directories[j]).len()
                    &&& forall|k: int|
                        0 <= k <= q.len() && final(store)@.local_settings.contains_key(#[trigger] q.take(k))
                            && final(store)@.local_settings[q.take(k)].contains_key(id) ==> directories.contains(q.take(k))
                }
        } else {
            &&& final(store)@.local_values[id].contains_key(q) == old(store)@.local_values[id].contains_key(q)
            &&& old(store)@.local_values[id].contains_key(q) ==> final(store)@.local_values[id][q]
                == old(store)@.local_values[id][q]
        },
{
    let before = old(store)@;
    let after = final(store)@;
    let settings = after.local_settings[path@];
    let model = SettingsModel {
        local_settings: before.local_settings.insert(path@, settings),
        ..before
    };
    assert(model.settings.contains_key(id));
    if settings.contains_key(id) && model.reloads(id, Some(path@), q) {
        assert(after.local_values[id].contains_key(q));
        lemma_local_value(model, id, q, after.local_values[id][q]);
    }
}

/// Removing the local settings of a directory succeeds, and removes its file and nothing else: other
/// files, the registered settings and the global values stay as they are.
pub proof fn law_removal_outcome<S: Setting>(
    store: &mut SettingsStore<S>,
    path: SettingsPath,
    result: Result<(), SettingsError>,
)
    requires
        old(store).wf(),
        call_ensures(SettingsStore::<S>::set_local_settings, (store, path, None), result),
    ensures
        result is Ok,
        final(store)@.keys == old(store)@.keys,
        final(store)@.settings == old(store)@.settings,
        final(store)@.default_settings == old(store)@.default_settings,
        final(store)@.user_settings == old(store)@.user_settings,
        final(store)@.global_values == old(store)@.global_values,
        final(store)@.local_settings == old(store)@.local_settings.remove(path@),
{
    let before = old(store)@;
    lemma_same_globals(
        before.without_local(path@),
        before.new_types(true, Some(path@)),
        path@,
        final(store)@,
    );
}

/// Once the local settings of a directory have been removed, no setting has a local value for it. The
/// local value of a setting that the removed file had content for, for a directory inside it that
/// customizes the setting, is loaded from what is left. No other local value changes.
pub proof fn law_removal_reaches_the_directories_inside<S: Setting>(
    store: &mut SettingsStore<S>,
    path: SettingsPath,
    result: Result<(), SettingsError>,
    id: u64,
    q: PathView,
)
    requires
        old(store).wf(),
        call_ensures(SettingsStore::<S>::set_local_settings, (store, path, None), result),
        old(store)@.settings.contains_key(id),
    ensures
        !final(store)@.local_values[id].contains_key(path@),
        q != path@ ==> (if old(store)@.local_settings.contains_key(path@)
            && old(store)@.local_settings[path@].contains_key(id) && path@.len() <= q.len() && q.take(path@.len() as int) == path@ && final(store)@.local_settings.contains_key(q) && final(store)@.local_settings[q].contains_key(id) {
            &&& final(store)@.local_values[id].contains_key(q)
            &&&
                exists|values: &[&S::FileContent], directories: Seq<PathView>| {
                    let first: int = if final(store)@.user_settings is Some && final(store)@.user_settings->0.contains_key(id) {
                        1
                    } else {
                        0
                    };
                    &&& final(store)@.default_settings.contains_key(id)
                    &&& #[trigger] call_ensures(
                        S::load,
                        (&final(store)@.settings[id], &final(store)@.default_settings[id], values),
                        final(store)@.local_values[id][q],
                    )
                    &&& values@.len() == first + #[trigger] directories.len()
                    &&& first == 1 ==> *values@[0] == final(store)@.user_settings->0[id]
                    &&& directories.len() > 0 && directories[directories.len() - 1] == q
                    &&& forall|i: int|
                        0 <= i < directories.len() ==> {
                            let directory = #[trigger] directories[i];
                            &&& directory.len() <= q.len() && directory == q.take(directory.len() as int)
                            &&& final(store)@.local_settings.contains_key(directory)
                            &&& final(store)@.local_settings[directory].contains_key(id)
                            &&& *values@[first + i] == final(store)@.local_settings[directory][id]
                        }
                    &&& forall|i: int, j: int|
                        0 <= i < j < directories.len() ==> (#[trigger] directories[i]).len() < (
                        #[trigger] directories[j]).len()
                    &&& forall|k: int|
                        0 <= k <= q.len() && final(store)@.local_settings.contains_key(#[trigger] q.take(k))
                            && final(store)@.local_settings[q.take(k)].contains_key(id) ==> directories.contains(q.take(k))
                }
        } else {
            &&& final(store)@.local_values[id].contains_key(q) == old(store)@.local_values[id].contains_key(q)
            &&& old(store)@.local_values[id].contains_key(q) ==> final(store)@.local_values[id][q]
                == old(store)@.local_values[id][q]
        }),
{
    let before = old(store)@;
    let after = final(store)@;
    let model = before.without_local(path@);
    assert(before.local_values.contains_key(id));
    assert(model.settings.contains_key(id));
    assert(after.local_values[id].get(path@) == model.local_values[id].get(path@));
    if before.new_types(true, Some(path@)).contains(id) && model.reloads(id, Some(path@), q) {
        assert(after.local_values[id].contains_key(q));
        lemma_local_value(model, id, q, after.local_values[id][q]);
    }
}

/// A change of local settings changes no global value.
proof fn lemma_same_globals<S: Setting>(
    before: SettingsModel<S>,
    changed: Set<u64>,
    path: PathView,
    after: SettingsModel<S>,
)
    requires
        before.global_values.dom().subset_of(before.settings.dom()),
        before.recomputed(changed, Some(path), after),
    ensures
        after.global_values == before.global_values,
{
    assert forall|id: u64| after.global_values.get(id) == before.global_values.get(id) by {
        if !before.settings.contains_key(id) {
            assert(!after.global_values.dom().contains(id));
            assert(!before.global_values.dom().contains(id));
        }
    }
    lemma_same_entries(after.global_values, before.global_values);
}

/// Which value is nearest: that of the longest directory on the path that has one.
proof fn lemma_nearest_value<V>(values: Map<PathView, V>, path: PathView, n: nat)
    requires
        n <= path.len(),
    ensures
        match nearest(values, path, n) {
            Some(value) => exists|k: int| {
                &&& 0 <= k <= n && values.contains_key(#[trigger] path.take(k)) && values[path.take(k)] == value
                &&& forall|m: int| k < m <= n ==> !values.contains_key(#[trigger] path.take(m))
            },
            None => forall|m: int| 0 <= m <= n ==> !values.contains_key(#[trigger] path.take(m)),
        },
    decreases n,
{
    if values.contains_key(path.take(n as int)) {
        assert(values.contains_key(path.take(n as int)));
    } else if n > 0 {
        lemma_nearest_value(values, path, (n - 1) as nat);
        if let Some(value) = nearest(values, path, (n - 1) as nat) {
            let k = choose|k: int| {
                &&& 0 <= k <= n - 1 && values.contains_key(#[trigger] path.take(k)) && values[path.take(k)]
                    == value
                &&& forall|m: int| k < m <= n - 1 ==> !values.contains_key(#[trigger] path.take(m))
            };
            assert(values.contains_key(path.take(k)));
        }
    }
}

/// Getting a setting at a path gives the local value of the innermost directory on the path that has
/// one, and the global value where no directory has, or where no path is given.
pub proof fn law_get_gives_the_innermost_value<S: Setting>(
    store: &SettingsStore<S>,
    id: u64,
    path: Option<&SettingsPath>,
    value: &S::Value,
)
    requires
        store.wf(),
        call_ensures(SettingsStore::<S>::get, (store, id, path), value),
    ensures
        match path {
            None => store@.global_values.contains_key(id) && store@.global_values[id] == *value,
            Some(p) => {
                ||| exists|k: int| {
                    &&& 0 <= k <= p@.len()
                    &&& store@.local_values[id].contains_key(#[trigger] p@.take(k))
                    &&& store@.local_values[id][p@.take(k)] == *value
                    &&& forall|m: int|
                        k < m <= p@.len() ==> !store@.local_values[id].contains_key(
                            #[trigger] p@.take(m),
                        )
                }
                ||| {
                    &&& store@.global_values.contains_key(id)
                    &&& store@.global_values[id] == *value
                    &&& forall|m: int|
                        0 <= m <= p@.len() ==> !store@.local_values[id].contains_key(
                            #[trigger] p@.take(m),
                        )
                }
            },
        },
{
    if let Some(p) = path {
        lemma_nearest_value(store@.local_values[id], p@, p@.len());
    }
}

/// Finding a setting at a path gives the local value of the innermost directory on the path that has
/// one, or else the global value. It gives nothing where the setting has neither, or is not registered.
pub proof fn law_find_gives_the_innermost_value<S: Setting>(
    store: &SettingsStore<S>,
    id: u64,
    path: Option<&SettingsPath>,
    value: Option<&S::Value>,
)
    requires
        store.wf(),
        call_ensures(SettingsStore::<S>::find, (store, id, path), value),
    ensures
        value is Some ==> store@.settings.contains_key(id),
        value matches Some(v) ==> (match path {
            None => store@.global_values.contains_key(id) && store@.global_values[id] == *v,
            Some(p) => {
                ||| exists|k: int| {
                    &&& 0 <= k <= p@.len()
                    &&& store@.local_values[id].contains_key(#[trigger] p@.take(k))
                    &&& store@.local_values[id][p@.take(k)] == *v
                    &&& forall|m: int|
                        k < m <= p@.len() ==> !store@.local_values[id].contains_key(
                            #[trigger] p@.take(m),
                        )
                }
                ||| {
                    &&& store@.global_values.contains_key(id)
                    &&& store@.global_values[id] == *v
                    &&& forall|m: int|
                        0 <= m <= p@.len() ==> !store@.local_values[id].contains_key(
                            #[trigger] p@.take(m),
                        )
                }
            },
        }),
        value is None && store@.settings.contains_key(id) ==> {
            &&& !store@.global_values.contains_key(id)
            &&& path matches Some(p) ==> forall|m: int|
                0 <= m <= p@.len() ==> !store@.local_values[id].contains_key(#[trigger] p@.take(m))
        },
{
    if let Some(p) = path {
        lemma_nearest_value(store@.local_values[id], p@, p@.len());
    }
    if value is None && store@.settings.contains_key(id) {
        assert(store@.global_values.get(id) is None);
    }
}

/// In a store that is up to date, getting a setting at a path gives what the setting loaded from its
/// default content, the user content where there is one, and the contents of all the directories on the
/// path that customize it, outermost first.
pub proof fn law_get_combines_every_layer<S: Setting>(
    store: &SettingsStore<S>,
    id: u64,
    path: &SettingsPath,
    value: &S::Value,
)
    requires
        store.wf(),
        store@.coherent(),
        store@.default_settings.contains_key(id),
        call_ensures(SettingsStore::<S>::get, (store, id, Some(path)), value),
    ensures
        exists|values: &[&S::FileContent], directories: Seq<PathView>| {
            let first: int = if store@.user_settings is Some && store@.user_settings->0.contains_key(id) {
                1
            } else {
                0
            };
            &&& store@.default_settings.contains_key(id)
            &&& #[trigger] call_ensures(
                S::load,
                (&store@.settings[id], &store@.default_settings[id], values),
                *value,
            )
            &&& values@.len() == first + #[trigger] directories.len()
            &&& first == 1 ==> *values@[0] == store@.user_settings->0[id]
            &&& forall|i: int|
                0 <= i < directories.len() ==> {
                    let directory = #[trigger] directories[i];
                    &&& directory.len() <= path@.len() && directory == path@.take(directory.len() as int)
                    &&& store@.local_settings.contains_key(directory)
                    &&& store@.local_settings[directory].contains_key(id)
                    &&& *values@[first + i] == store@.local_settings[directory][id]
                }
            &&& forall|i: int, j: int|
                0 <= i < j < directories.len() ==> (#[trigger] directories[i]).len() < (
                #[trigger] directories[j]).len()
            &&& forall|k: int|
                0 <= k <= path@.len() && store@.local_settings.contains_key(#[trigger] path@.take(k))
                    && store@.local_settings[path@.take(k)].contains_key(id) ==> directories.contains(path@.take(k))
        },
{
    law_value_combines_all_layers(store@, id, Some(path@));
    lemma_local_value(store@, id, path@, *value);
}

/// In a store that is up to date, getting a setting without a path gives what the setting loaded from
/// its default content, and the user content where there is one.
pub proof fn law_get_without_a_path_combines_defaults_and_user<S: Setting>(
    store: &SettingsStore<S>,
    id: u64,
    value: &S::Value,
)
    requires
        store.wf(),
        store@.coherent(),
        store@.default_settings.contains_key(id),
        call_ensures(SettingsStore::<S>::get, (store, id, None::<&SettingsPath>), value),
    ensures
        exists|values: &[&S::FileContent]| {
            &&& store@.default_settings.contains_key(id)
            &&& #[trigger] call_ensures(
                S::load,
                (&store@.settings[id], &store@.default_settings[id], values),
                *value,
            )
            &&& match store@.user_settings {
                Some(user) => if user.contains_key(id) {
                    values@.len() == 1 && *values@[0] == user[id]
                } else {
                    values@.len() == 0
                },
                None => values@.len() == 0,
            }
        },
{
    law_value_combines_all_layers(store@, id, None);
    lemma_global_value(store@, id, *value);
}

/// A new store has no settings, no files and no values.
pub proof fn law_new_store_is_empty<S: Setting>(
    store: SettingsStore<S>,
)
    requires
        call_ensures(SettingsStore::<S>::default, (), store),
    ensures
        store.wf(),
        store@.keys.len() == 0,
        forall|id: u64| !(#[trigger] store@.settings.contains_key(id)),
        forall|id: u64| !(#[trigger] store@.default_settings.contains_key(id)),
        forall|id: u64| !(#[trigger] store@.global_values.contains_key(id)),
        store@.user_settings is None,
        forall|path: PathView| !(#[trigger] store@.local_settings.contains_key(path)),
{

}

/// Registering a setting adds it under its type id, with the field name that it gave and without local
/// values, in front of every key with a greater field name and behind every key with a smaller one.
/// Nothing else changes.
pub proof fn law_registration_adds_one_setting<S: Setting>(
    store: &mut SettingsStore<S>,
    type_id: u64,
    setting: S,
    index: int,
    other: u64,
)
    requires
        old(store).wf(),
        !old(store)@.settings.contains_key(type_id),
        call_ensures(SettingsStore::<S>::register_setting, (store, type_id, setting), ()),
    ensures
        final(store).wf(),
        exists|given: Option<&'static str>, position: int| {
            &&& #[trigger] call_ensures(S::field_name, (&setting,), given)
            &&& 0 <= position < final(store)@.keys.len()
            &&& (#[trigger] final(store)@.keys[position]).1 == type_id
            &&& match given {
                Some(name) => final(store)@.keys[position].0 == Some(name@),
                None => final(store)@.keys[position].0 is None,
            }
            &&& old(store)@.keys == final(store)@.keys.remove(position)
        },
        0 <= index < final(store)@.keys.len() - 1 && final(store)@.keys[index].0 is Some ==> {
            &&& final(store)@.keys[index + 1].0 is Some
            &&& final(store)@.keys[index].0 == final(store)@.keys[index + 1].0 || str_less(
                final(store)@.keys[index].0->0,
                final(store)@.keys[index + 1].0->0,
            )
        },
        final(store)@.settings == old(store)@.settings.insert(type_id, setting),
        forall|path: PathView| !(#[trigger] final(store)@.local_values[type_id].contains_key(path)),
        other != type_id ==> final(store)@.local_values[other] == old(store)@.local_values[other],
        final(store)@.default_settings == old(store)@.default_settings,
        final(store)@.user_settings == old(store)@.user_settings,
        final(store)@.local_settings == old(store)@.local_settings,
        final(store)@.global_values == old(store)@.global_values,
{
    let before = old(store)@;
    let after = final(store)@;
    let (position, name) = choose|position: int, name: Option<Seq<char>>|
        0 <= position <= before.keys.len() && named(setting, name) && after.keys
            == #[trigger] before.keys.insert(position, (name, type_id));
    let given = choose|given: Option<&'static str>|
        name_view(given) == name && #[trigger] call_ensures(S::field_name, (&setting,), given);
    assert(after.keys[position] == (name, type_id));
    assert(before.keys =~= after.keys.remove(position));
    if 0 <= index < after.keys.len() - 1 && after.keys[index].0 is Some {
        assert(!name_less(after.keys[index + 1].0, after.keys[index].0));
        lemma_name_order(after.keys[index].0, after.keys[index + 1].0, after.keys[index].0);
    }
}

/// Trying to set the user settings declines only where the text is a JSON object and some setting
/// without default content can deserialize its text in it, or has content in the previous file, and
/// then changes nothing. It fails exactly where the text is no JSON object.
pub proof fn law_trying_user_settings<S: Setting>(
    store: &mut SettingsStore<S>,
    json: &str,
    tried: Option<Result<(), SettingsError>>,
)
    requires
        old(store).wf(),
        call_ensures(SettingsStore::<S>::try_set_user_settings, (store, json), tried),
    ensures
        tried is None ==> {
            &&& final(store)@ == old(store)@
            &&& json_object(json@) is Some
            &&& exists|id: u64| {
                &&& #[trigger] old(store)@.settings.contains_key(id)
                &&& !old(store)@.default_settings.contains_key(id)
                &&& (old(store)@.user_settings is Some && old(store)@.user_settings->0.contains_key(id)) || exists|i: int, text: &str, read: Result<S::FileContent, String>| {
                    &&& 0 <= i < old(store)@.keys.len() && old(store)@.keys[i].1 == id
                    &&& #[trigger] call_ensures(
                        S::deserialize,
                        (&old(store)@.settings[old(store)@.keys[i].1], text),
                        read,
                    )
                    &&& read is Ok
                    &&& match old(store)@.keys[i].0 {
                        Some(name) => json_object(json@)->0.contains_key(name) && text@
                            == json_object(json@)->0[name],
                        None => text@ == json@,
                    }
                }
            }
        },
        json_object(json@) is None <==> tried matches Some(Err(SettingsError::InvalidJson(_))),
        tried matches Some(outcome) ==> (outcome is Ok <==> json_object(json@) is Some),
{
    let before = old(store)@;
    if tried is None {
        let members = json_object(json@)->0;
        let settings = choose|settings: Map<u64, S::FileContent>| #[trigger]
            before.is_setting_map(json@, members, settings) && !settings.dom().union(
                before.user_types(),
            ).subset_of(before.default_settings.dom());
        let types = settings.dom().union(before.user_types());
        let id = choose|id: u64| types.contains(id) && !before.default_settings.dom().contains(id);
        assert(before.settings.dom().contains(id));
        assert(before.settings.contains_key(id));
        if settings.contains_key(id) {
            let i = choose|i: int| 0 <= i < before.keys.len() && (#[trigger] before.keys[i]).1 == id;
            lemma_content(before, json@, members, settings, i);
        }
    }
}

/// Where trying to set the user settings does not decline, it does what setting them does, where what
/// each setting reads and loads is a function of the text and of the contents.
pub proof fn law_trying_user_settings_is_setting_them<S: Setting>(
    store: &mut SettingsStore<S>,
    twin: &mut SettingsStore<S>,
    json: &str,
    outcome: Result<(), SettingsError>,
    result: Result<(), SettingsError>,
)
    requires
        old(store).wf(),
        old(store)@ == old(twin)@,
        old(store)@.pure_reads(),
        old(store)@.pure_loads(),
        call_ensures(SettingsStore::<S>::try_set_user_settings, (store, json), Some(outcome)),
        call_ensures(SettingsStore::<S>::set_user_settings, (twin, json), result),
    ensures
        outcome is Ok <==> result is Ok,
        final(store)@ == final(twin)@,
{
    let before = old(store)@;
    let call = Call::User(json@);
    lemma_alike_call(before, before, call, outcome_of(outcome), outcome_of(result), final(store)@, final(twin)@);
}

/// Trying to set or remove local settings declines only where some setting without default content can
/// deserialize its text in the file, or, for a removal, is in the file to be removed and customized by
/// a directory inside, and then changes nothing. It fails exactly where it is given a text that is no
/// JSON object.
pub proof fn law_trying_local_settings<S: Setting>(
    store: &mut SettingsStore<S>,
    path: SettingsPath,
    content: Option<&str>,
    tried: Option<Result<(), SettingsError>>,
)
    requires
        old(store).wf(),
        call_ensures(SettingsStore::<S>::try_set_local_settings, (store, path, content), tried),
    ensures
        tried is None ==> {
            &&& final(store)@ == old(store)@
            &&& exists|id: u64| {
                &&& #[trigger] old(store)@.settings.contains_key(id)
                &&& !old(store)@.default_settings.contains_key(id)
                &&& match content {
                    Some(json) => exists|i: int, text: &str, read: Result<S::FileContent, String>| {
                    &&& 0 <= i < old(store)@.keys.len() && old(store)@.keys[i].1 == id
                    &&& #[trigger] call_ensures(
                        S::deserialize,
                        (&old(store)@.settings[old(store)@.keys[i].1], text),
                        read,
                    )
                    &&& read is Ok
                    &&& match old(store)@.keys[i].0 {
                        Some(name) => json_object(json@)->0.contains_key(name) && text@
                            == json_object(json@)->0[name],
                        None => text@ == json@,
                    }
                },
                    None => {
                        &&& old(store)@.local_settings.contains_key(path@)
                        &&& old(store)@.local_settings[path@].contains_key(id)
                        &&& exists|q: PathView| {
                            &&& path@.len() < q.len() && q.take(path@.len() as int) == path@
                            &&& #[trigger] old(store)@.local_settings.contains_key(q)
                            &&& old(store)@.local_settings[q].contains_key(id)
                        }
                    },
                }
            }
        },
        (content matches Some(json) && json_object(json@) is None) <==> tried matches Some(Err(SettingsError::InvalidJson(_))),
        tried matches Some(outcome) ==> (outcome is Ok <==> (content matches Some(json)
            ==> json_object(json@) is Some)),
{
    let before = old(store)@;
    if tried is None {
        match content {
            Some(json) => {
                let members = json_object(json@)->0;
                let settings = choose|settings: Map<u64, S::FileContent>| #[trigger]
                    before.is_setting_map(json@, members, settings) && !settings.dom().subset_of(
                        before.default_settings.dom(),
                    );
                let id = choose|id: u64|
                    settings.dom().contains(id) && !before.default_settings.dom().contains(id);
                assert(before.settings.dom().contains(id));
                assert(before.settings.contains_key(id));
                let i = choose|i: int| 0 <= i < before.keys.len() && (#[trigger] before.keys[i]).1 == id;
                lemma_content(before, json@, members, settings, i);
            },
            None => {
                let types = before.new_types(true, Some(path@));
                let id = choose|id: u64| #[trigger]
                    types.contains(id) && before.without_local(path@).needs_default(id, Some(path@))
                        && !before.default_settings.contains_key(id);
                assert(before.local_settings.contains_key(path@));
                assert(before.local_settings[path@].dom().contains(id));
                assert(before.settings.contains_key(id));
                let model = before.without_local(path@);
                let q = choose|q: PathView| model.reloads(id, Some(path@), q);
                assert(before.local_settings.contains_key(q));
                if q.len() == path@.len() {
                    assert(q.take(path@.len() as int) =~= q);
                }
            },
        }
    }
}

/// Where trying to set or remove local settings does not decline, it does what setting or removing them
/// does, where what each setting reads and loads is a function of the text and of the contents.
pub proof fn law_trying_local_settings_is_setting_them<S: Setting>(
    store: &mut SettingsStore<S>,
    twin: &mut SettingsStore<S>,
    path: SettingsPath,
    content: Option<&str>,
    outcome: Result<(), SettingsError>,
    result: Result<(), SettingsError>,
)
    requires
        old(store).wf(),
        old(store)@ == old(twin)@,
        old(store)@.pure_reads(),
        old(store)@.pure_loads(),
        call_ensures(SettingsStore::<S>::try_set_local_settings, (store, path, content), Some(outcome)),
        call_ensures(SettingsStore::<S>::set_local_settings, (twin, path, content), result),
    ensures
        outcome is Ok <==> result is Ok,
        final(store)@ == final(twin)@,
{
    let before = old(store)@;
    let call = Call::Local(path@, content_view(content));
    lemma_alike_call(before, before, call, outcome_of(outcome), outcome_of(result), final(store)@, final(twin)@);
}

/// Replacing the user settings by contents does what setting them to a text does from which these
/// contents are read, where what each setting loads is a function of the contents.
pub proof fn law_replacing_user_settings_is_setting_them<S: Setting>(
    store: &mut SettingsStore<S>,
    twin: &mut SettingsStore<S>,
    json: &str,
    settings: DeserializedSettingMap<S::FileContent>,
)
    requires
        old(store).wf(),
        old(store)@ == old(twin)@,
        old(store)@.pure_loads(),
        call_ensures(SettingsStore::<S>::set_user_settings, (store, json), Ok(())),
        final(store)@.user_settings == Some(settings@),
        call_ensures(SettingsStore::<S>::replace_user_settings, (twin, settings), ()),
    ensures
        final(store)@ == final(twin)@,
{
    let before = old(store)@;
    let model = SettingsModel { user_settings: Some(settings@), ..before };
    let changed = settings@.dom().union(before.user_types());
    lemma_same_values(model, model, changed, None, final(store)@, final(twin)@);
}

/// Replacing the default settings by contents does what setting them to a text does from which these
/// contents are read, where what each setting loads is a function of the contents.
pub proof fn law_replacing_default_settings_is_setting_them<S: Setting>(
    store: &mut SettingsStore<S>,
    twin: &mut SettingsStore<S>,
    json: &str,
    settings: DeserializedSettingMap<S::FileContent>,
    result: Result<(), SettingsError>,
    replaced: Result<(), SettingsError>,
)
    requires
        old(store).wf(),
        old(store)@ == old(twin)@,
        old(store)@.pure_loads(),
        json_object(json@) is Some,
        call_ensures(SettingsStore::<S>::set_default_settings, (store, json), result),
        final(store)@.default_settings == settings@,
        call_ensures(SettingsStore::<S>::replace_default_settings, (twin, settings), replaced),
    ensures
        result is Ok <==> replaced is Ok,
        final(store)@ == final(twin)@,
{
    let before = old(store)@;
    let model = SettingsModel { default_settings: settings@, ..before };
    if settings@.dom() == before.settings.dom() {
        lemma_same_values(model, model, before.settings.dom(), None, final(store)@, final(twin)@);
    }
}

/// Replacing the local settings of a directory by contents does what setting them to a text does from
/// which these contents are read, where what each setting loads is a function of the contents.
pub proof fn law_replacing_local_settings_is_setting_them<S: Setting>(
    store: &mut SettingsStore<S>,
    twin: &mut SettingsStore<S>,
    path: SettingsPath,
    json: &str,
    settings: DeserializedSettingMap<S::FileContent>,
)
    requires
        old(store).wf(),
        old(store)@ == old(twin)@,
        old(store)@.pure_loads(),
        call_ensures(SettingsStore::<S>::set_local_settings, (store, path, Some(json)), Ok(())),
        final(store)@.local_settings[path@] == settings@,
        call_ensures(SettingsStore::<S>::replace_local_settings, (twin, path, settings), ()),
    ensures
        final(store)@ == final(twin)@,
{
    let before = old(store)@;
    let model = SettingsModel {
        local_settings: before.local_settings.insert(path@, settings@),
        ..before
    };
    lemma_same_values(model, model, settings@.dom(), Some(path@), final(store)@, final(twin)@);
}

/// Removing the local settings of a directory does what setting them to none does, where what each
/// setting loads is a function of the contents.
pub proof fn law_removing_local_settings_is_setting_none<S: Setting>(
    store: &mut SettingsStore<S>,
    twin: &mut SettingsStore<S>,
    path: SettingsPath,
    result: Result<(), SettingsError>,
)
    requires
        old(store).wf(),
        old(store)@ == old(twin)@,
        old(store)@.pure_loads(),
        call_ensures(SettingsStore::<S>::set_local_settings, (store, path, None), result),
        call_ensures(SettingsStore::<S>::remove_local_settings, (twin, &path), ()),
    ensures
        final(store)@ == final(twin)@,
{
    let before = old(store)@;
    let model = before.without_local(path@);
    assert(model.local_values.dom() =~= before.local_values.dom());
    lemma_same_values(
        model,
        model,
        before.new_types(true, Some(path@)),
        Some(path@),
        final(store)@,
        final(twin)@,
    );
}

/// Reading the entries of a file's object hands every setting the text of the entry with its field
/// name, or the whole text where it has no field name, and holds exactly what the setting deserialized
/// from it.
pub proof fn law_reading_entries_is_reading_the_file<S: Setting>(
    store: &SettingsStore<S>,
    json: &str,
    entries: &Vec<(String, String)>,
    map: DeserializedSettingMap<S::FileContent>,
    index: int,
    entry: int,
    other: u64,
)
    requires
        store.wf(),
        keys_ascending(entries@),
        call_ensures(SettingsStore::<S>::load_setting_entries, (store, json, entries), map),
        0 <= index < store@.keys.len(),
    ensures
        match store@.keys[index].0 {
            None => {
                exists|text: &str, read: Result<S::FileContent, String>| {
                    &&& #[trigger] call_ensures(
                        S::deserialize,
                        (&store@.settings[store@.keys[index].1], text),
                        read,
                    )
                    &&& text@ == json@
                    &&& match read {
                        Ok(content) => map@.contains_key(store@.keys[index].1)
                            && map@[store@.keys[index].1] == content,
                        Err(_) => !map@.contains_key(store@.keys[index].1),
                    }
                }
            },
            Some(name) => {
                &&& 0 <= entry < entries@.len() && entries@[entry].0@ == name ==> exists|
                    text: &str,
                    read: Result<S::FileContent, String>,
                | {
                    &&& #[trigger] call_ensures(
                        S::deserialize,
                        (&store@.settings[store@.keys[index].1], text),
                        read,
                    )
                    &&& text@ == entries@[entry].1@
                    &&& match read {
                        Ok(content) => map@.contains_key(store@.keys[index].1)
                            && map@[store@.keys[index].1] == content,
                        Err(_) => !map@.contains_key(store@.keys[index].1),
                    }
                }
                &&& map@.contains_key(store@.keys[index].1) ==> exists|e: int|
                    0 <= e < entries@.len() && (#[trigger] entries@[e]).0@ == name
            },
        },
        map@.contains_key(other) ==> exists|i: int|
            0 <= i < store@.keys.len() && (#[trigger] store@.keys[i]).1 == other,
{
    let members = members_of(entries@);
    lemma_content(store@, json@, members, map@, index);
    if map@.contains_key(other) {
        lemma_no_other_content(store@, json@, members, map@, other);
    }
    if let Some(name) = store@.keys[index].0 {
        if 0 <= entry < entries@.len() && entries@[entry].0@ == name {
            lemma_members(entries@, entry);
        }
        if members.contains_key(name) {
            let e = choose|e: int| has_key_at(entries@, name, e);
            assert(entries@[e].0@ == name);
        }
    }
}

/// A store accepts default settings of any text. Where every registered setting has default content, it
/// accepts user settings and local settings of any text, and the removal of local settings. Trying to
/// set them is always accepted.
pub proof fn law_callers_need_only_defaults<S: Setting>(
    store: &mut SettingsStore<S>,
    path: SettingsPath,
    json: &str,
    content: Option<&str>,
)
    requires
        old(store).wf(),
    ensures
        call_requires(SettingsStore::<S>::set_default_settings, (store, json)),
        call_requires(SettingsStore::<S>::try_set_user_settings, (store, json)),
        call_requires(SettingsStore::<S>::try_set_local_settings, (store, path, content)),
        (forall|id: u64| #[trigger]
            old(store)@.settings.contains_key(id) ==> old(store)@.default_settings.contains_key(id)) ==> {
            &&& call_requires(SettingsStore::<S>::set_user_settings, (store, json))
            &&& call_requires(SettingsStore::<S>::set_local_settings, (store, path, content))
        },
{
    let before = old(store)@;
    if forall|id: u64| #[trigger]
        before.settings.contains_key(id) ==> before.default_settings.contains_key(id) {
        assert(before.settings.dom().subset_of(before.default_settings.dom()));
        assert forall|id: u64| #[trigger] before.new_types(true, Some(path@)).contains(id) implies
            before.default_settings.contains_key(id) by {
            assert(before.local_settings[path@].dom().contains(id));
            assert(before.settings.contains_key(id));
        }
    }
}

/// A setting is registered where it has been added, and its values are those of the store.
pub proof fn law_looking_up_a_setting<S: Setting>(
    store: &SettingsStore<S>,
    id: u64,
    registered: bool,
    value: Option<&SettingValue<S>>,
)
    requires
        store.wf(),
        call_ensures(SettingsStore::<S>::is_registered, (store, id), registered),
        call_ensures(SettingsStore::<S>::setting_value, (store, id), value),
    ensures
        registered <==> store@.settings.contains_key(id),
        registered <==> value is Some,
        value matches Some(v) ==> {
            &&& v.setting == store@.settings[id]
            &&& v.global_value is Some <==> store@.global_values.contains_key(id)
            &&& v.global_value matches Some(g) ==> g == store@.global_values[id]
            &&& v.local_values@ == store@.local_values[id]
        },
{
    if value is Some {
        assert(store@.global_values.get(id) == value->0.global_value);
    }
}

/// The value of a setting for a path is the local value of the innermost directory on the path that has
/// one, and the global value where no directory has, or where no path is given.
pub proof fn law_value_for_path_is_the_innermost<S: Setting>(
    set: &SettingValue<S>,
    path: Option<&SettingsPath>,
    value: &S::Value,
)
    requires
        call_ensures(SettingValue::<S>::value_for_path, (set, path), value),
    ensures
        match path {
            None => set.global_value is Some && set.global_value->0 == *value,
            Some(p) => {
                ||| exists|k: int| {
                    &&& 0 <= k <= p@.len()
                    &&& set.local_values@.contains_key(#[trigger] p@.take(k))
                    &&& set.local_values@[p@.take(k)] == *value
                    &&& forall|m: int|
                        k < m <= p@.len() ==> !set.local_values@.contains_key(
                            #[trigger] p@.take(m),
                        )
                }
                ||| {
                    &&& set.global_value is Some
                    &&& set.global_value->0 == *value
                    &&& forall|m: int|
                        0 <= m <= p@.len() ==> !set.local_values@.contains_key(
                            #[trigger] p@.take(m),
                        )
                }
            },
        },
{
    if let Some(p) = path {
        lemma_nearest_value(set.local_values@, p@, p@.len());
    }
}

/// Loading a value hands the setting the default content and every user content, in order.
pub proof fn law_loading_hands_over_every_content<S: Setting>(
    set: &SettingValue<S>,
    default_value: &S::FileContent,
    user_values: &[&S::FileContent],
    value: S::Value,
)
    requires
        call_ensures(SettingValue::<S>::load_setting, (set, default_value, user_values), value),
    ensures
        exists|values: &[&S::FileContent]| {
            &&& #[trigger] call_ensures(S::load, (&set.setting, default_value, values), value)
            &&& values@.len() == user_values@.len()
            &&& forall|i: int| 0 <= i < values@.len() ==> *(#[trigger] values@[i]) == *user_values@[i]
        },
{
    let values = choose|values: &[&S::FileContent]|
        values@.unref() == user_values@.unref() && #[trigger] call_ensures(
            S::load,
            (&set.setting, default_value, values),
            value,
        );
    assert(values@.unref().len() == values@.len() && user_values@.unref().len() == user_values@.len());
    assert forall|i: int| 0 <= i < values@.len() implies *(#[trigger] values@[i]) == *user_values@[i] by {
        assert(values@.unref()[i] == user_values@.unref()[i]);
    }
}

} // verus!
