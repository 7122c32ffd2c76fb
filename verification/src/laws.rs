//! What holds of the store as a whole.
use vstd::prelude::*;

use crate::json::{fields_of, merge_all, merged, JsonView};
use crate::model::{customizes, layers, SettingsModel};
use crate::path::{path_starts_with, PathView};
use crate::setting::{fixed_name, nearest, pure_load, pure_read, Setting};

verus! {

impl<S: Setting> SettingsModel<S> {
    /// Every local value belongs to a directory whose settings file customizes the setting.
    pub open spec fn no_stale_values(self) -> bool {
        forall|id: u64, path: PathView|
            self.settings.contains_key(id) && #[trigger] self.local_values[id].contains_key(path)
                ==> customizes(self.local_settings, path, id)
    }

    /// The values of the setting `id` are the ones that the current contents give: a global value
    /// where the setting has default content, and a local value for each directory that customizes
    /// it.
    pub open spec fn coherent_at(self, id: u64) -> bool {
        &&& self.global_values.contains_key(id) <==> self.default_settings.contains_key(id)
        &&& self.global_values.contains_key(id) ==> self.loads(id, None, self.global_values[id])
        &&& forall|path: PathView| #[trigger]
            self.local_values[id].contains_key(path) <==> customizes(self.local_settings, path, id)
        &&& forall|path: PathView| #[trigger]
            self.local_values[id].contains_key(path) ==> self.loads(
                id,
                Some(path),
                self.local_values[id][path],
            )
    }

    /// Every local value belongs to a directory with a settings file.
    pub open spec fn values_have_files(self) -> bool {
        forall|id: u64, path: PathView|
            self.settings.contains_key(id) && #[trigger] self.local_values[id].contains_key(path)
                ==> self.local_settings.contains_key(path)
    }

    /// Every value is the one that the current contents give.
    pub open spec fn coherent(self) -> bool {
        forall|id: u64| #[trigger] self.settings.contains_key(id) ==> self.coherent_at(id)
    }

    /// Every registered setting always gives the same field name.
    pub open spec fn fixed_names(self) -> bool {
        forall|id: u64| #[trigger] self.settings.contains_key(id) ==> fixed_name(self.settings[id])
    }

    /// What each registered setting reads is a function of the text.
    pub open spec fn pure_reads(self) -> bool {
        forall|id: u64| #[trigger] self.settings.contains_key(id) ==> pure_read(self.settings[id])
    }

    /// What each registered setting loads is a function of the contents.
    pub open spec fn pure_loads(self) -> bool {
        forall|id: u64| #[trigger] self.settings.contains_key(id) ==> pure_load(self.settings[id])
    }

    /// This model and `other` have the same settings and the same file contents.
    pub open spec fn same_contents(self, other: Self) -> bool {
        &&& self.settings == other.settings
        &&& self.default_settings == other.default_settings
        &&& self.user_settings == other.user_settings
        &&& self.local_settings == other.local_settings
    }
}

/// The contents decide the values: stores that are up to date with the same contents have the same
/// values, where what each setting loads is a function of the contents.
pub proof fn law_contents_decide_values<S: Setting>(a: SettingsModel<S>, b: SettingsModel<S>)
    requires
        a.valid(),
        b.valid(),
        a.coherent(),
        b.coherent(),
        a.pure_loads(),
        a.same_contents(b),
    ensures
        a.global_values == b.global_values,
        a.local_values == b.local_values,
{
    assert forall|id: u64| #[trigger] a.settings.contains_key(id) implies a.local_values[id]
        == b.local_values[id] && a.global_values.get(id) == b.global_values.get(id) by {
        assert(a.coherent_at(id) && b.coherent_at(id));
        assert(pure_load(a.settings[id]));
        assert(a.user_layer(id) == b.user_layer(id));
        assert forall|path: PathView| #[trigger] a.local_values[id].contains_key(path) implies
            b.local_values[id].contains_key(path) && a.local_values[id][path]
            == b.local_values[id][path] by {
            assert(b.local_values[id].contains_key(path));
        }
        assert forall|path: PathView| #[trigger] b.local_values[id].contains_key(path) implies
            a.local_values[id].contains_key(path) by {
            assert(customizes(a.local_settings, path, id));
        }
        assert(a.local_values[id] =~= b.local_values[id]);
    }
    assert forall|id: u64| #[trigger] a.global_values.contains_key(id) implies
        b.global_values.contains_key(id) && a.global_values[id] == b.global_values[id] by {
        assert(a.settings.dom().contains(id));
        assert(a.settings.contains_key(id));
        assert(a.global_values.get(id) == b.global_values.get(id));
    }
    assert forall|id: u64| #[trigger] b.global_values.contains_key(id) implies
        a.global_values.contains_key(id) by {
        assert(b.settings.dom().contains(id));
        assert(a.settings.contains_key(id));
        assert(a.global_values.get(id) == b.global_values.get(id));
    }
    assert(a.global_values =~= b.global_values);
    assert forall|id: u64| #[trigger] a.local_values.contains_key(id) implies a.local_values[id]
        == b.local_values[id] by {
        assert(a.settings.contains_key(id));
    }
    assert(a.local_values =~= b.local_values);
}

/// Layers depend on the directories down to the path alone.
proof fn lemma_layers_agree<C>(
    a: Map<PathView, Map<u64, C>>,
    b: Map<PathView, Map<u64, C>>,
    id: u64,
    p: PathView,
    q: PathView,
    n: nat,
)
    requires
        forall|k: int| 0 <= k < n ==> #[trigger] p.take(k) == q.take(k),
        forall|k: int|
            0 <= k < n ==> {
                let directory = #[trigger] p.take(k);
                &&& customizes(a, directory, id) == customizes(b, directory, id)
                &&& customizes(a, directory, id) ==> a[directory][id] == b[directory][id]
            },
    ensures
        layers(a, id, p, n) == layers(b, id, q, n),
    decreases n,
{
    if n > 0 {
        assert(p.take(n - 1) == q.take(n - 1));
        lemma_layers_agree(a, b, id, p, q, (n - 1) as nat);
    }
}

/// The value in effect at any path combines everything that applies there: in a store whose values
/// are up to date, a setting with default content has a value at every path, loaded from the
/// default content, the user content and the contents of all the local settings files of the
/// directories from the outermost down to the path.
pub proof fn law_value_combines_all_layers<S: Setting>(
    model: SettingsModel<S>,
    id: u64,
    path: Option<PathView>,
)
    requires
        model.valid(),
        model.coherent(),
        model.default_settings.contains_key(id),
    ensures
        model.value(id, path) is Some,
        model.loads(id, path, model.value(id, path)->0),
{
    assert(model.settings.contains_key(id));
    assert(model.coherent_at(id));
    if let Some(p) = path {
        lemma_nearest_layers(model, id, p, p.len());
    }
}

/// The nearest local value belongs to a directory with the same layers as the path, and where there
/// is none, no directory adds a layer.
proof fn lemma_nearest_layers<S: Setting>(model: SettingsModel<S>, id: u64, p: PathView, n: nat)
    requires
        model.coherent_at(id),
        n <= p.len(),
    ensures
        match nearest(model.local_values[id], p, n) {
            Some(value) => exists|k: int| #![trigger p.take(k)]
                0 <= k <= n && model.local_values[id].contains_key(p.take(k))
                    && value == model.local_values[id][p.take(k)] && layers(
                    model.local_settings,
                    id,
                    p,
                    n + 1,
                ) == layers(model.local_settings, id, p.take(k), p.take(k).len() + 1),
            None => layers(model.local_settings, id, p, n + 1) == Seq::<S::FileContent>::empty(),
        },
    decreases n,
{
    let local = model.local_settings;
    let values = model.local_values[id];
    let directory = p.take(n as int);
    if values.contains_key(directory) {
        assert forall|k: int| 0 <= k < n + 1 implies #[trigger] p.take(k) == directory.take(k) by {
            assert(p.take(k) =~= directory.take(k));
        }
        lemma_layers_agree(local, local, id, p, directory, n + 1);
        assert(directory.len() == n);
        assert(p.take(n as int) == directory);
    } else {
        assert(!customizes(local, directory, id));
        assert(layers(local, id, p, n + 1) == layers(local, id, p, n));
        if n > 0 {
            lemma_nearest_layers(model, id, p, (n - 1) as nat);
        }
    }
}

/// Setting the default settings brings every value up to date, from any store without values for
/// directories that no longer customize the setting.
pub proof fn law_default_settings_update_values<S: Setting>(
    before: SettingsModel<S>,
    settings: Map<u64, S::FileContent>,
    after: SettingsModel<S>,
)
    requires
        before.valid(),
        before.no_stale_values(),
        settings.dom() == before.settings.dom(),
        (SettingsModel { default_settings: settings, ..before }).recomputed(
            before.settings.dom(),
            None,
            after,
        ),
    ensures
        after.coherent(),
{
    let model = SettingsModel { default_settings: settings, ..before };
    assert forall|id: u64| #[trigger] after.settings.contains_key(id) implies after.coherent_at(id) by {
        assert(model.settings.contains_key(id));
        assert forall|path: PathView| #[trigger] after.local_values[id].contains_key(path) <==> customizes(
            after.local_settings,
            path,
            id,
        ) by {
            assert(before.local_values[id].contains_key(path) ==> customizes(
                before.local_settings,
                path,
                id,
            ));
        }
        assert forall|path: PathView| #[trigger] after.local_values[id].contains_key(path) implies after.loads(
            id,
            Some(path),
            after.local_values[id][path],
        ) by {
            assert(model.reloads(id, None, path));
        }
    }
}

/// Values that are up to date are not stale.
pub proof fn law_current_values_are_not_stale<S: Setting>(model: SettingsModel<S>)
    requires
        model.coherent(),
    ensures
        model.no_stale_values(),
{
    assert forall|id: u64, path: PathView|
        model.settings.contains_key(id) && #[trigger] model.local_values[id].contains_key(path) implies customizes(
        model.local_settings,
        path,
        id,
    ) by {
        assert(model.coherent_at(id));
    }
}

/// Loading settings anew makes no value stale.
pub proof fn law_loading_anew_makes_nothing_stale<S: Setting>(
    before: SettingsModel<S>,
    changed: Set<u64>,
    changed_path: Option<PathView>,
    after: SettingsModel<S>,
)
    requires
        before.no_stale_values(),
        before.recomputed(changed, changed_path, after),
    ensures
        after.no_stale_values(),
{
    assert forall|id: u64, path: PathView|
        after.settings.contains_key(id) && #[trigger] after.local_values[id].contains_key(path) implies customizes(
        after.local_settings,
        path,
        id,
    ) by {
        assert(before.settings.contains_key(id));
        assert(before.local_values[id].contains_key(path) ==> customizes(
            before.local_settings,
            path,
            id,
        ));
    }
}

/// Setting the user settings keeps every value up to date.
pub proof fn law_user_settings_keep_values_current<S: Setting>(
    before: SettingsModel<S>,
    settings: Map<u64, S::FileContent>,
    after: SettingsModel<S>,
)
    requires
        before.valid(),
        before.coherent(),
        settings.dom().union(before.user_types()).subset_of(before.default_settings.dom()),
        (SettingsModel { user_settings: Some(settings), ..before }).recomputed(
            settings.dom().union(before.user_types()),
            None,
            after,
        ),
    ensures
        after.coherent(),
{
    let model = SettingsModel { user_settings: Some(settings), ..before };
    let changed = settings.dom().union(before.user_types());
    assert forall|id: u64| #[trigger] after.settings.contains_key(id) implies after.coherent_at(id) by {
        assert(model.settings.contains_key(id));
        assert(before.coherent_at(id));
        if changed.contains(id) {
            assert(before.default_settings.dom().contains(id));
            assert forall|path: PathView| #[trigger] after.local_values[id].contains_key(path) <==> customizes(
                after.local_settings,
                path,
                id,
            ) by {
                assert(before.local_values[id].contains_key(path) <==> customizes(
                    before.local_settings,
                    path,
                    id,
                ));
            }
            assert forall|path: PathView| #[trigger] after.local_values[id].contains_key(path) implies after.loads(
                id,
                Some(path),
                after.local_values[id][path],
            ) by {
                assert(model.reloads(id, None, path));
            }
        } else {
            assert(after.user_layer(id) =~= before.user_layer(id));
            assert(after.global_values.get(id) == before.global_values.get(id));
            assert(after.global_values.contains_key(id) <==> before.global_values.contains_key(id));
        }
    }
}

/// How the layers of the setting `id` change with the settings file of one directory.
pub proof fn lemma_layers_other<C>(
    before: Map<PathView, Map<u64, C>>,
    after: Map<PathView, Map<u64, C>>,
    changed: PathView,
    id: u64,
    path: PathView,
)
    requires
        forall|directory: PathView| #![trigger customizes(before, directory, id)]
            directory != changed ==> {
                &&& customizes(before, directory, id) == customizes(after, directory, id)
                &&& customizes(before, directory, id) ==> before[directory][id] == after[directory][id]
            },
        !path_starts_with(path, changed) || (!customizes(before, changed, id) && !customizes(
            after,
            changed,
            id,
        )),
    ensures
        layers(before, id, path, path.len() + 1) == layers(after, id, path, path.len() + 1),
{
    assert forall|k: int| 0 <= k < path.len() + 1 implies {
        let directory = #[trigger] path.take(k);
        &&& customizes(before, directory, id) == customizes(after, directory, id)
        &&& customizes(before, directory, id) ==> before[directory][id] == after[directory][id]
    } by {
        let directory = path.take(k);
        if directory == changed {
            assert(path.take(changed.len() as int) =~= changed);
        }
    }
    lemma_layers_agree(before, after, id, path, path, path.len() + 1);
}

/// Setting the local settings of a directory keeps every value up to date, where the new settings
/// file has content for every setting that the one it replaces had content for.
pub proof fn law_local_settings_keep_values_current<S: Setting>(
    before: SettingsModel<S>,
    path: PathView,
    settings: Map<u64, S::FileContent>,
    after: SettingsModel<S>,
)
    requires
        before.valid(),
        before.coherent(),
        settings.dom().subset_of(before.default_settings.dom()),
        before.local_settings.contains_key(path) ==> before.local_settings[path].dom().subset_of(
            settings.dom(),
        ),
        (SettingsModel {
            local_settings: before.local_settings.insert(path, settings),
            ..before
        }).recomputed(settings.dom(), Some(path), after),
    ensures
        after.coherent(),
{
    let model = SettingsModel {
        local_settings: before.local_settings.insert(path, settings),
        ..before
    };
    assert forall|id: u64| #[trigger] after.settings.contains_key(id) implies after.coherent_at(id) by {
        assert(model.settings.contains_key(id));
        assert(before.coherent_at(id));
        assert(after.user_layer(id) == before.user_layer(id));
        assert(after.global_values.get(id) == before.global_values.get(id));
        assert(after.global_values.contains_key(id) <==> before.global_values.contains_key(id));
        if before.local_settings.contains_key(path) && before.local_settings[path].dom().contains(id) {
            assert(settings.dom().contains(id));
        }
        assert forall|p: PathView| #[trigger] after.local_values[id].contains_key(p) <==> customizes(
            after.local_settings,
            p,
            id,
        ) by {
            assert(before.local_values[id].contains_key(p) <==> customizes(
                before.local_settings,
                p,
                id,
            ));
            if p == path {
                assert(p.take(p.len() as int) =~= p);
            }
        }
        assert forall|p: PathView| #[trigger] after.local_values[id].contains_key(p) implies after.loads(
            id,
            Some(p),
            after.local_values[id][p],
        ) by {
            if !settings.contains_key(id) || !model.reloads(id, Some(path), p) {
                if p == path {
                    assert(p.take(p.len() as int) =~= p);
                }
                lemma_layers_other(before.local_settings, after.local_settings, path, id, p);
                assert(before.local_values[id].contains_key(p));
                assert(after.local_values[id].get(p) == before.local_values[id].get(p));
            }
        }
    }
}

/// Removing the local settings of a directory keeps every value up to date.
pub proof fn law_removed_local_settings_keep_values_current<S: Setting>(
    before: SettingsModel<S>,
    path: PathView,
    after: SettingsModel<S>,
)
    requires
        before.valid(),
        before.coherent(),
        before.can_remove_local(path),
        before.without_local(path).recomputed(
            before.new_types(true, Some(path)),
            Some(path),
            after,
        ),
    ensures
        after.coherent(),
{
    let model = before.without_local(path);
    let changed = before.new_types(true, Some(path));
    assert forall|id: u64| #[trigger] after.settings.contains_key(id) implies after.coherent_at(id) by {
        assert(model.settings.contains_key(id));
        assert(before.coherent_at(id));
        assert(before.local_values.contains_key(id));
        assert(model.local_values[id] == before.local_values[id].remove(path));
        assert(after.user_layer(id) == before.user_layer(id));
        assert(after.global_values.get(id) == before.global_values.get(id));
        assert(after.global_values.contains_key(id) <==> before.global_values.contains_key(id));
        assert forall|p: PathView| #[trigger] after.local_values[id].contains_key(p) <==> customizes(
            after.local_settings,
            p,
            id,
        ) by {
            assert(before.local_values[id].contains_key(p) <==> customizes(
                before.local_settings,
                p,
                id,
            ));
        }
        assert forall|p: PathView| #[trigger] after.local_values[id].contains_key(p) implies after.loads(
            id,
            Some(p),
            after.local_values[id][p],
        ) by {
            if !changed.contains(id) || !model.reloads(id, Some(path), p) {
                lemma_layers_other(before.local_settings, after.local_settings, path, id, p);
                assert(before.local_values[id].contains_key(p));
                assert(after.local_values[id].get(p) == model.local_values[id].get(p));
            }
        }
    }
}

/// Registering a setting keeps every value up to date.
pub proof fn law_registration_keeps_values_current<S: Setting>(
    before: SettingsModel<S>,
    type_id: u64,
    setting: S,
    after: SettingsModel<S>,
)
    requires
        before.valid(),
        before.coherent(),
        !before.settings.contains_key(type_id),
        after == (SettingsModel {
            keys: after.keys,
            settings: before.settings.insert(type_id, setting),
            local_values: before.local_values.insert(
                type_id,
                Map::<PathView, S::Value>::empty(),
            ),
            ..before
        }),
    ensures
        after.coherent(),
{
    assert forall|id: u64| #[trigger] after.settings.contains_key(id) implies after.coherent_at(id) by {
        if id == type_id {
            assert(!before.settings.dom().contains(id));
            assert(!before.global_values.dom().contains(id));
            assert(!before.default_settings.dom().contains(id));
            assert forall|path: PathView| !customizes(after.local_settings, path, id) by {
                if before.local_settings.contains_key(path) {
                    assert(!before.local_settings[path].dom().contains(id));
                }
            }
        } else {
            assert(before.settings.contains_key(id));
            assert(before.coherent_at(id));
            assert(after.local_values[id] == before.local_values[id]);
            assert forall|path: PathView| #[trigger] after.local_values[id].contains_key(path) implies after.loads(
                id,
                Some(path),
                after.local_values[id][path],
            ) by {
                assert(before.loads(id, Some(path), before.local_values[id][path]));
                assert(after.user_values(id, Some(path)) == before.user_values(id, Some(path)));
            }
        }
    }
}

/// A new store, with nothing in it, is up to date.
pub proof fn law_new_store_is_current<S: Setting>(model: SettingsModel<S>)
    requires
        model.settings == Map::<u64, S>::empty(),
    ensures
        model.coherent(),
{
}

/// Once default settings have been set, every registered setting has a value at every path.
pub proof fn law_defaults_give_every_setting_a_value<S: Setting>(
    before: SettingsModel<S>,
    after: SettingsModel<S>,
    id: u64,
    path: Option<PathView>,
)
    requires
        before.recomputed(before.settings.dom(), None, after),
        before.settings.contains_key(id),
    ensures
        after.value(id, path) is Some,
{
    assert(after.global_values.get(id) is Some);
}

/// A setting that has a value outside of any directory keeps having one at every path, whatever
/// file changes.
pub proof fn law_values_stay<S: Setting>(
    before: SettingsModel<S>,
    changed: Set<u64>,
    changed_path: Option<PathView>,
    after: SettingsModel<S>,
    id: u64,
    path: Option<PathView>,
)
    requires
        before.recomputed(changed, changed_path, after),
        before.settings.contains_key(id),
        before.value(id, None) is Some,
    ensures
        after.value(id, path) is Some,
{
    assert(before.global_values.get(id) is Some);
    assert(after.global_values.get(id) is Some);
}

/// The nearest value depends on the directories down to the path alone.
proof fn lemma_nearest_agree<V>(a: Map<PathView, V>, b: Map<PathView, V>, p: PathView, n: nat)
    requires
        forall|k: int| 0 <= k <= n ==> a.get(#[trigger] p.take(k)) == b.get(p.take(k)),
    ensures
        nearest(a, p, n) == nearest(b, p, n),
    decreases n,
{
    assert(a.get(p.take(n as int)) == b.get(p.take(n as int)));
    if n > 0 {
        lemma_nearest_agree(a, b, p, (n - 1) as nat);
    }
}

/// Changing the local settings of a directory changes no value outside of that directory.
pub proof fn law_local_settings_stay_inside<S: Setting>(
    before: SettingsModel<S>,
    changed: Set<u64>,
    changed_path: PathView,
    after: SettingsModel<S>,
    id: u64,
    path: Option<PathView>,
)
    requires
        before.recomputed(changed, Some(changed_path), after),
        before.settings.contains_key(id),
        path matches Some(p) ==> !path_starts_with(p, changed_path),
    ensures
        after.value(id, path) == before.value(id, path),
{
    if let Some(p) = path {
        assert forall|k: int| 0 <= k <= p.len() implies after.local_values[id].get(#[trigger] p.take(k))
            == before.local_values[id].get(p.take(k)) by {
            let directory = p.take(k);
            if path_starts_with(directory, changed_path) {
                assert(p.take(changed_path.len() as int) =~= directory.take(changed_path.len() as int));
            }
            assert(!before.reloads(id, Some(changed_path), directory));
        }
        lemma_nearest_agree(after.local_values[id], before.local_values[id], p, p.len());
    }
}

/// Removing the local settings of a directory changes no value outside of that directory.
pub proof fn law_removed_local_settings_stay_inside<S: Setting>(
    before: SettingsModel<S>,
    changed_path: PathView,
    after: SettingsModel<S>,
    id: u64,
    path: Option<PathView>,
)
    requires
        before.valid(),
        before.without_local(changed_path).recomputed(
            before.new_types(true, Some(changed_path)),
            Some(changed_path),
            after,
        ),
        before.settings.contains_key(id),
        path matches Some(p) ==> !path_starts_with(p, changed_path),
    ensures
        after.value(id, path) == before.value(id, path),
{
    let model = before.without_local(changed_path);
    law_local_settings_stay_inside(
        model,
        before.new_types(true, Some(changed_path)),
        changed_path,
        after,
        id,
        path,
    );
    if let Some(p) = path {
        assert(before.local_values.contains_key(id));
        assert forall|k: int| 0 <= k <= p.len() implies model.local_values[id].get(#[trigger] p.take(k))
            == before.local_values[id].get(p.take(k)) by {
            if p.take(k) == changed_path {
                assert(p.take(changed_path.len() as int) =~= changed_path);
            }
        }
        lemma_nearest_agree(model.local_values[id], before.local_values[id], p, p.len());
    }
}

/// A change of files leaves alone the values of the settings that neither the new file nor the old
/// one has content for.
pub proof fn law_other_settings_keep_their_values<S: Setting>(
    before: SettingsModel<S>,
    changed: Set<u64>,
    changed_path: Option<PathView>,
    after: SettingsModel<S>,
    id: u64,
    path: Option<PathView>,
)
    requires
        before.recomputed(changed, changed_path, after),
        before.settings.contains_key(id),
        !changed.contains(id),
    ensures
        after.value(id, path) == before.value(id, path),
{
}

/// Removing the local settings of a directory that had none before they were added gives back the
/// contents of before, and every value too, where what each setting loads is a function of the
/// contents.
pub proof fn law_removal_undoes_addition<S: Setting>(
    before: SettingsModel<S>,
    path: PathView,
    settings: Map<u64, S::FileContent>,
    between: SettingsModel<S>,
    after: SettingsModel<S>,
)
    requires
        before.valid(),
        before.coherent(),
        !before.local_settings.contains_key(path),
        settings.dom().subset_of(before.default_settings.dom()),
        (SettingsModel {
            local_settings: before.local_settings.insert(path, settings),
            ..before
        }).recomputed(settings.dom(), Some(path), between),
        between.without_local(path).recomputed(
            between.new_types(true, Some(path)),
            Some(path),
            after,
        ),
    ensures
        after == before.with_values_of(after),
        after.coherent(),
        before.pure_loads() ==> after == before,
{
    assert(after.local_settings =~= before.local_settings);
    law_local_settings_keep_values_current(before, path, settings, between);
    let model = SettingsModel {
        local_settings: before.local_settings.insert(path, settings),
        ..before
    };
    assert(between.contents_valid()) by {
        assert(between.local_values.dom() == before.settings.dom());
        assert forall|p: PathView| #[trigger] between.local_settings.contains_key(p) implies between.local_settings[p].dom().subset_of(
        between.settings.dom()) by {
            assert(p == path || before.local_settings.contains_key(p));
        }
    }
    before.lemma_keys_valid(between);
    law_removed_local_settings_keep_values_current(between, path, after);
    if before.pure_loads() {
        before.lemma_keys_valid(after);
        assert(after.local_values.dom() == before.settings.dom());
        law_contents_decide_values(after, before);
    }
}

/// The user values are ordered from least specific to most specific: after the user settings
/// file's come those of local settings files, each directory lying in the ones before it.
pub proof fn law_user_values_are_ordered<S: Setting>(
    model: SettingsModel<S>,
    id: u64,
    path: PathView,
)
    ensures
        exists|directories: Seq<PathView>|
            #[trigger] layer_directories(model.local_settings, id, path, path.len() + 1, directories)
                && model.user_values(id, Some(path)) == model.user_layer(id) + directories.map_values(
                |directory: PathView| model.local_settings[directory][id],
            ),
{
    let local = model.local_settings;
    let content = |directory: PathView| local[directory][id];
    let directories = lemma_layer_directories(local, id, path, path.len() + 1);
    assert(directories.map_values(content) =~= directories.map_values(
        |directory: PathView| model.local_settings[directory][id],
    ));
}

/// `directories` are those of `path.take(0)`, .., `path.take(n - 1)` whose settings files customize
/// the setting `id`, each one lying in the ones before it.
pub open spec fn layer_directories<C>(
    local_settings: Map<PathView, Map<u64, C>>,
    id: u64,
    path: PathView,
    n: nat,
    directories: Seq<PathView>,
) -> bool {
    &&& forall|i: int, j: int|
        0 <= i < j < directories.len() ==> {
            &&& path_starts_with(#[trigger] directories[j], #[trigger] directories[i])
            &&& directories[i].len() < directories[j].len()
        }
    &&& forall|i: int|
        0 <= i < directories.len() ==> path_starts_with(path, #[trigger] directories[i])
            && customizes(local_settings, directories[i], id) && directories[i].len() < n
    &&& forall|directory: PathView| #[trigger]
        customizes(local_settings, directory, id) && path_starts_with(path, directory) && directory.len()
            < n ==> directories.contains(directory)
}

/// The layers are the contents of the directories that customize the setting.
pub proof fn lemma_layer_directories<C>(
    local: Map<PathView, Map<u64, C>>,
    id: u64,
    path: PathView,
    n: nat,
) -> (directories: Seq<PathView>)
    requires
        n <= path.len() + 1,
    ensures
        layer_directories(local, id, path, n, directories),
        directories.map_values(|directory: PathView| local[directory][id]) == layers(
            local,
            id,
            path,
            n,
        ),
    decreases n,
{
    let content = |directory: PathView| local[directory][id];
    if n == 0 {
        let directories = Seq::<PathView>::empty();
        assert(directories.map_values(content) =~= Seq::empty());
        directories
    } else {
        let outer = lemma_layer_directories(local, id, path, (n - 1) as nat);
        let last = path.take(n - 1);
        let directories = if customizes(local, last, id) {
            outer.push(last)
        } else {
            outer
        };
        assert(path.take(last.len() as int) =~= last);
        assert forall|i: int, j: int| 0 <= i < j < directories.len() implies {
            &&& path_starts_with(#[trigger] directories[j], #[trigger] directories[i])
            &&& directories[i].len() < directories[j].len()
        } by {
            if j == outer.len() {
                let directory = outer[i];
                assert(last.take(directory.len() as int) =~= path.take(directory.len() as int));
            }
        }
        assert forall|directory: PathView| #[trigger]
            customizes(local, directory, id) && path_starts_with(path, directory) && directory.len() < n implies directories.contains(
        directory) by {
            if directory.len() < n - 1 {
                assert(outer.contains(directory));
                let i = outer.index_of(directory);
                assert(directories[i] == directory);
            } else {
                assert(directory == last);
                assert(directories[outer.len() as int] == directory);
            }
        }
        assert(directories.map_values(content) =~= layers(local, id, path, n));
        directories
    }
}

/// Null values do not override: merging null changes nothing, and neither does a member that is
/// null or absent.
pub proof fn law_null_does_not_override(source: JsonView, target: JsonView, key: Seq<char>)
    ensures
        source is Null ==> merged(source, target) == target,
        source is Object && (fields_of(source).get(key) is None || fields_of(source)[key] is Null)
            ==> fields_of(merged(source, target)).get(key) == fields_of(target).get(key),
{
}

/// The last of the merged values wins: whatever it is, it is merged over the ones before it, and
/// it replaces them where it is neither null nor an object.
pub proof fn law_last_value_wins(values: Seq<JsonView>, last: JsonView)
    ensures
        merge_all(values.push(last)) == merged(last, merge_all(values)),
        last !is Null && last !is Object ==> merge_all(values.push(last)) == last,
{
    assert(values.push(last).drop_last() =~= values);
}

/// Merging a value into itself changes nothing.
pub proof fn law_merge_with_itself(value: JsonView)
    ensures
        merged(value, value) == value,
    decreases value,
{
    if let JsonView::Object(fields) = value {
        let result = fields_of(merged(value, value));
        assert forall|key: Seq<char>| #[trigger] fields.contains_key(key) implies result[key] == fields[key] by {
            law_merge_with_itself(fields[key]);
        }
        assert(result =~= fields);
    }
}

/// Merging a value twice is the same as merging it once.
pub proof fn law_merge_twice(source: JsonView, target: JsonView)
    ensures
        merged(source, merged(source, target)) == merged(source, target),
    decreases source,
{
    if let JsonView::Object(fields) = source {
        let once = fields_of(merged(source, target));
        let twice = fields_of(merged(source, merged(source, target)));
        assert forall|key: Seq<char>| #[trigger] once.contains_key(key) implies twice[key] == once[key] by {
            if fields.contains_key(key) && fields[key] !is Null {
                if fields_of(target).contains_key(key) {
                    law_merge_twice(fields[key], fields_of(target)[key]);
                } else {
                    law_merge_with_itself(fields[key]);
                }
            }
        }
        assert(twice =~= once);
    }
}

} // verus!
