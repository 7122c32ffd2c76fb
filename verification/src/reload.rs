//! Loading the values of one setting anew.
use std::collections::HashMap;

use vstd::prelude::*;

use crate::model::{customizes, layers, SettingsModel};
use crate::path::SettingsPath;
use crate::path::{lemma_path_trichotomy, lemma_prefix_less, path_less, path_starts_with, PathView};
use crate::path_map::PathMap;
use crate::setting::{path_view, Setting, SettingValue};

verus! {

broadcast use vstd::std_specs::hash::group_hash_axioms;

/// The contents of a settings file by setting type.
pub type DeserializedSettingMap<C> = HashMap<u64, C>;

/// The model of the local settings files.
pub open spec fn local_view<C>(local_settings: PathMap<DeserializedSettingMap<C>>) -> Map<
    PathView,
    Map<u64, C>,
> {
    local_settings@.map_values(|settings: DeserializedSettingMap<C>| settings@)
}

/// Directories that do not customize a setting add no layer.
pub proof fn lemma_layers_skip<C>(
    local_settings: Map<PathView, Map<u64, C>>,
    id: u64,
    path: PathView,
    m: nat,
    n: nat,
)
    requires
        m <= n,
        forall|k: int| m <= k < n ==> !customizes(local_settings, #[trigger] path.take(k), id),
    ensures
        layers(local_settings, id, path, n) == layers(local_settings, id, path, m),
    decreases n,
{
    if m < n {
        assert(!customizes(local_settings, path.take(n - 1), id));
        lemma_layers_skip(local_settings, id, path, m, (n - 1) as nat);
    }
}

/// Pushes the contents for the setting `id` of the directories above the one at position `index`,
/// outermost first.
fn push_outer_values<'a, C>(
    stack: &mut Vec<&'a C>,
    local_settings: &'a PathMap<DeserializedSettingMap<C>>,
    index: usize,
    id: u64,
)
    requires
        local_settings.wf(),
        index < local_settings.paths().len(),
    ensures
        final(stack)@.unref() == old(stack)@.unref() + layers(
            local_view(*local_settings),
            id,
            local_settings.paths()[index as int],
            local_settings.paths()[index as int].len(),
        ),
{
    let path = local_settings.path_at(index);
    let ghost base = stack@.unref();
    let ghost local = local_view(*local_settings);
    let ghost paths = local_settings.paths();
    let ghost mut m: nat = 0;
    proof {
        local_settings.lemma_paths();
        assert(base + layers(local, id, path@, 0) =~= base);
    }
    let mut i: usize = 0;
    while i < index
        invariant
            local_settings.wf(),
            i <= index < paths.len(),
            paths == local_settings.paths(),
            path@ == paths[index as int],
            local == local_view(*local_settings),
            m <= path@.len(),
            stack@.unref() == base + layers(local, id, path@, m),
            forall|j: int|
                0 <= j < i && path_starts_with(path@, #[trigger] paths[j]) ==> paths[j].len() < m,
            forall|j: int|
                i <= j < paths.len() && path_starts_with(path@, #[trigger] paths[j]) ==> m <= paths[j].len(),
        decreases index - i,
    {
        if path.starts_with(local_settings.path_at(i)) {
            let ghost directory = paths[i as int];
            proof {
                local_settings.lemma_paths();
                lemma_path_trichotomy(directory, path@);
                assert(path_less(paths[i as int], paths[index as int]));
                assert(directory.len() < path@.len()) by {
                    if directory.len() == path@.len() {
                        assert(path@.take(directory.len() as int) =~= path@);
                    }
                }
                assert forall|k: int| m <= k < directory.len() implies !customizes(
                    local,
                    #[trigger] path@.take(k),
                    id,
                ) by {
                    let outer = path@.take(k);
                    if local.contains_key(outer) {
                        assert(paths.contains(outer));
                        let j = paths.index_of(outer);
                        assert(paths[j] == outer);
                        assert(path@.take(outer.len() as int) =~= outer);
                        assert(directory.take(outer.len() as int) =~= outer);
                        lemma_prefix_less(directory, outer);
                        lemma_path_trichotomy(directory, outer);
                        if i < j {
                            assert(path_less(paths[i as int], paths[j]));
                        }
                    }
                }
                lemma_layers_skip(local, id, path@, m, directory.len());
            }
            if let Some(value) = local_settings.value_at(i).get(&id) {
                let ghost before = stack@.unref();
                stack.push(value);
                assert(stack@.unref() =~= before.push(*value));
                assert(before.push(*value) =~= base + layers(local, id, path@, directory.len()).push(
                    *value,
                ));
            }
            proof {
                assert forall|j: int|
                    i < j < paths.len() && path_starts_with(path@, #[trigger] paths[j]) implies directory.len()
                    + 1 <= paths[j].len() by {
                    let inner = paths[j];
                    assert(path_less(paths[i as int], paths[j]));
                    if inner.len() <= directory.len() {
                        assert(directory.take(inner.len() as int) =~= path@.take(inner.len() as int));
                        lemma_path_trichotomy(directory, inner);
                        lemma_prefix_less(directory, inner);
                    }
                }
                m = directory.len() + 1;
            }
        }
        i = i + 1;
    }
    proof {
        local_settings.lemma_paths();
        assert forall|k: int| m <= k < path@.len() implies !customizes(
            local,
            #[trigger] path@.take(k),
            id,
        ) by {
            let outer = path@.take(k);
            if local.contains_key(outer) {
                assert(paths.contains(outer));
                let j = paths.index_of(outer);
                assert(paths[j] == outer);
                assert(path@.take(outer.len() as int) =~= outer);
                lemma_prefix_less(path@, outer);
                lemma_path_trichotomy(path@, outer);
                if index < j {
                    assert(path_less(paths[index as int], paths[j]));
                }
            }
        }
        lemma_layers_skip(local, id, path@, m, path@.len());
    }
}

/// Loads the values of the setting `id` anew: the global value, unless only the local settings of
/// `changed_local_path` have changed, and the local values of the directories in it that customize
/// the setting.
pub(crate) fn reload_setting<S: Setting>(
    setting_value: &mut SettingValue<S>,
    id: u64,
    default_settings: &DeserializedSettingMap<S::FileContent>,
    user_settings: &Option<DeserializedSettingMap<S::FileContent>>,
    local_settings: &PathMap<DeserializedSettingMap<S::FileContent>>,
    changed_local_path: Option<&SettingsPath>,
    Ghost(model): Ghost<SettingsModel<S>>,
)
    requires
        old(setting_value).wf(),
        local_settings.wf(),
        model.settings[id] == old(setting_value).setting,
        model.default_settings == default_settings@,
        model.user_settings == (match *user_settings {
            Some(user) => Some(user@),
            None => None,
        }),
        model.local_settings == local_view(*local_settings),
        model.needs_default(id, path_view(changed_local_path)) ==> default_settings@.contains_key(id),
    ensures
        final(setting_value).wf(),
        final(setting_value).setting == old(setting_value).setting,
        model.reloaded(
            id,
            path_view(changed_local_path),
            (old(setting_value).global_value, old(setting_value).local_values@),
            (final(setting_value).global_value, final(setting_value).local_values@),
        ),
{
    let ghost changed = path_view(changed_local_path);
    let ghost paths = local_settings.paths();
    let ghost old_locals = setting_value.local_values@;

    // Build the prioritized list of deserialized values to pass to the setting's
    // load function.
    let mut user_values_stack: Vec<&S::FileContent> = Vec::new();
    if let Some(user_settings) = user_settings {
        if let Some(user_value) = user_settings.get(&id) {
            user_values_stack.push(user_value);
        }
    }
    assert(user_values_stack@.unref() =~= model.user_layer(id));

    // If the global settings file changed, reload the global value for the field.
    if changed_local_path.is_none() {
        let global_value = setting_value.load_setting(
            default_settings.get(&id).unwrap(),
            user_values_stack.as_slice(),
        );
        setting_value.set_global_value(global_value);
    }
    let ghost global_value = setting_value.global_value;

    // Reload the local values for the setting.
    let user_value_stack_len: usize = user_values_stack.len();
    let mut i: usize = 0;
    while i < local_settings.len()
        invariant
            local_settings.wf(),
            paths == local_settings.paths(),
            changed == path_view(changed_local_path),
            i <= paths.len(),
            setting_value.wf(),
            setting_value.setting == model.settings[id],
            setting_value.global_value == global_value,
            model.default_settings == default_settings@,
            model.local_settings == local_view(*local_settings),
            model.needs_default(id, changed) ==> default_settings@.contains_key(id),
            user_value_stack_len == model.user_layer(id).len(),
            user_values_stack.len() >= user_value_stack_len,
            user_values_stack@.unref().take(user_value_stack_len as int) == model.user_layer(id),
            forall|j: int|
                0 <= j < i && model.reloads(id, changed, #[trigger] paths[j]) ==> {
                    &&& setting_value.local_values@.contains_key(paths[j])
                    &&& model.loads(id, Some(paths[j]), setting_value.local_values@[paths[j]])
                },
            forall|path: PathView| #![trigger setting_value.local_values@.contains_key(path)]
                (forall|j: int| 0 <= j < i && model.reloads(id, changed, #[trigger] paths[j]) ==> paths[j] != path)
                    ==> setting_value.local_values@.get(path) == old_locals.get(path),
        decreases local_settings.paths().len() - i,
    {
        let path = local_settings.path_at(i);
        let ghost before = setting_value.local_values@;
        proof {
            local_settings.lemma_paths();
        }

        // If a local settings file changed, then avoid recomputing local
        // settings for any path outside of that directory.
        let inside = match changed_local_path {
            Some(changed_path) => path.starts_with(changed_path),
            None => true,
        };
        if inside {
            // Ignore recomputing settings for any path that hasn't customized that setting.
            if let Some(deserialized_value) = local_settings.value_at(i).get(&id) {
                assert(model.reloads(id, changed, path@));

                // Build a stack of all of the local values for that setting.
                user_values_stack.truncate(user_value_stack_len);
                assert(user_values_stack@.unref() =~= model.user_layer(id));
                push_outer_values(&mut user_values_stack, local_settings, i, id);
                let ghost outer = user_values_stack@.unref();
                user_values_stack.push(deserialized_value);
                proof {
                    assert(path@.take(path@.len() as int) =~= path@);
                    assert(user_values_stack@.unref() =~= outer.push(*deserialized_value));
                    assert(user_values_stack@.unref() =~= model.user_values(id, Some(path@)));
                    assert(user_values_stack@.unref().take(user_value_stack_len as int)
                        =~= model.user_layer(id));
                }

                // Load the local value for the field.
                let local_value = setting_value.load_setting(
                    default_settings.get(&id).unwrap(),
                    user_values_stack.as_slice(),
                );
                setting_value.set_local_value(path.clone(), local_value);
                proof {
                    assert(model.loads(id, Some(path@), local_value));
                    assert forall|j: int|
                        0 <= j < i + 1 && model.reloads(id, changed, #[trigger] paths[j]) implies {
                        &&& setting_value.local_values@.contains_key(paths[j])
                        &&& model.loads(id, Some(paths[j]), setting_value.local_values@[paths[j]])
                    } by {
                        if j < i {
                            assert(path_less(paths[j], paths[i as int]));
                            lemma_path_trichotomy(paths[j], paths[j]);
                        }
                    }
                }
            }
        }
        proof {
            assert forall|p: PathView| #![trigger setting_value.local_values@.contains_key(p)]
                (forall|j: int| 0 <= j < i + 1 && model.reloads(id, changed, #[trigger] paths[j]) ==> paths[j] != p)
                implies setting_value.local_values@.get(p) == old_locals.get(p) by {
                if model.reloads(id, changed, paths[i as int]) {
                    assert(paths[i as int] != p);
                }
            }
        }
        i = i + 1;
    }
    proof {
        local_settings.lemma_paths();
        assert forall|path: PathView| #![trigger setting_value.local_values@.contains_key(path)]
            if model.reloads(id, changed, path) {
                setting_value.local_values@.contains_key(path) && model.loads(
                    id,
                    Some(path),
                    setting_value.local_values@[path],
                )
            } else {
                setting_value.local_values@.get(path) == old_locals.get(path)
            } by {
            if model.reloads(id, changed, path) {
                assert(paths.contains(path));
                let j = paths.index_of(path);
                assert(paths[j] == path);
            }
        }
    }
}

} // verus!
