//! A map keyed by directory paths and kept in path order.
use vstd::prelude::*;

use crate::order::Comparison;
use crate::path::SettingsPath;
use crate::path::{lemma_path_transitive, lemma_path_trichotomy, path_less, PathView};

verus! {

/// A map from paths to values, iterated in ascending order of path.
pub struct PathMap<T> {
    entries: Vec<(SettingsPath, T)>,
}

/// The paths of `entries`, in order.
pub open spec fn entry_paths<T>(entries: Seq<(SettingsPath, T)>) -> Seq<PathView> {
    entries.map_values(|entry: (SettingsPath, T)| entry.0@)
}

/// Every path of `paths` comes strictly before the ones that follow it.
pub open spec fn ascending(paths: Seq<PathView>) -> bool {
    forall|i: int, j: int| 0 <= i < j < paths.len() ==> path_less(#[trigger] paths[i], #[trigger] paths[j])
}

impl<T> View for PathMap<T> {
    type V = Map<PathView, T>;

    closed spec fn view(&self) -> Map<PathView, T> {
        Map::new(
            |path: PathView| self.paths().contains(path),
            |path: PathView| self.entries@[self.paths().index_of(path)].1,
        )
    }
}

impl<T> PathMap<T> {
    /// The keys of the map, in the order in which they are iterated.
    pub closed spec fn paths(&self) -> Seq<PathView> {
        entry_paths(self.entries@)
    }

    /// The keys are in ascending order, so none occurs twice.
    pub closed spec fn wf(&self) -> bool {
        ascending(self.paths())
    }

    /// How the ordered keys and the map relate.
    pub proof fn lemma_paths(&self)
        requires
            self.wf(),
        ensures
            ascending(self.paths()),
            forall|path: PathView| self@.contains_key(path) <==> #[trigger] self.paths().contains(path),
            forall|i: int| 0 <= i < self.paths().len() ==> self@.contains_key(#[trigger] self.paths()[i]),
    {
        assert forall|i: int| 0 <= i < self.paths().len() implies self@.contains_key(
            #[trigger] self.paths()[i],
        ) by {
            assert(self.paths().contains(self.paths()[i]));
        }
    }

    proof fn lemma_entry(&self, i: int)
        requires
            self.wf(),
            0 <= i < self.entries@.len(),
        ensures
            self@.contains_key(self.entries@[i].0@),
            self@[self.entries@[i].0@] == self.entries@[i].1,
    {
        let path = self.entries@[i].0@;
        let paths = self.paths();
        assert(paths[i] == path);
        assert(paths.contains(path));
        let k = paths.index_of(path);
        assert(paths[k] == path);
        lemma_path_trichotomy(path, path);
        if k < i {
            assert(path_less(paths[k], paths[i]));
        } else if i < k {
            assert(path_less(paths[i], paths[k]));
        }
    }

    /// The empty map.
    pub fn new() -> (map: Self)
        ensures
            map.wf(),
            map@ == Map::<PathView, T>::empty(),
            map.paths() == Seq::<PathView>::empty(),
    {
        let map = PathMap { entries: Vec::new() };
        assert(map.paths() =~= Seq::<PathView>::empty());
        assert(map@ =~= Map::<PathView, T>::empty());
        map
    }

    /// The number of entries.
    pub fn len(&self) -> (len: usize)
        ensures
            len == self.paths().len(),
    {
        self.entries.len()
    }

    /// The path of the entry at position `index`.
    pub fn path_at(&self, index: usize) -> (path: &SettingsPath)
        requires
            index < self.paths().len(),
        ensures
            path@ == self.paths()[index as int],
    {
        &self.entries[index].0
    }

    /// The value of the entry at position `index`.
    pub fn value_at(&self, index: usize) -> (value: &T)
        requires
            self.wf(),
            index < self.paths().len(),
        ensures
            self@.contains_key(self.paths()[index as int]),
            *value == self@[self.paths()[index as int]],
    {
        proof {
            self.lemma_entry(index as int);
        }
        &self.entries[index].1
    }

    /// Looks for `path`: the position of its entry, or else the position at which an entry for it
    /// keeps the order.
    fn search(&self, path: &SettingsPath) -> (result: Result<usize, usize>)
        requires
            self.wf(),
        ensures
            match result {
                Ok(index) => index < self.paths().len() && self.paths()[index as int] == path@,
                Err(index) => {
                    &&& index <= self.paths().len()
                    &&& forall|i: int|
                        0 <= i < index ==> path_less(#[trigger] self.paths()[i], path@)
                    &&& forall|i: int|
                        index <= i < self.paths().len() ==> path_less(path@, #[trigger] self.paths()[i])
                },
            },
    {
        let mut low: usize = 0;
        let mut high: usize = self.entries.len();
        while low < high
            invariant
                low <= high <= self.entries.len(),
                self.entries.len() == self.paths().len(),
                ascending(self.paths()),
                forall|i: int| 0 <= i < low ==> path_less(#[trigger] self.paths()[i], path@),
                forall|i: int|
                    high <= i < self.paths().len() ==> path_less(path@, #[trigger] self.paths()[i]),
            decreases high - low,
        {
            let middle: usize = low + (high - low) / 2;
            match self.entries[middle].0.compare(path) {
                Comparison::Equal => {
                    return Ok(middle);
                },
                Comparison::Less => {
                    proof {
                        assert forall|i: int| 0 <= i < middle + 1 implies path_less(
                            #[trigger] self.paths()[i],
                            path@,
                        ) by {
                            if i < middle {
                                lemma_path_transitive(self.paths()[i], self.paths()[middle as int], path@);
                            }
                        }
                    }
                    low = middle + 1;
                },
                Comparison::Greater => {
                    proof {
                        assert forall|i: int| middle <= i < self.paths().len() implies path_less(
                            path@,
                            #[trigger] self.paths()[i],
                        ) by {
                            if middle < i {
                                lemma_path_transitive(path@, self.paths()[middle as int], self.paths()[i]);
                            }
                        }
                    }
                    high = middle;
                },
            }
        }
        Err(low)
    }

    proof fn lemma_absent(&self, path: PathView, index: int)
        requires
            self.wf(),
            0 <= index <= self.paths().len(),
            forall|i: int| 0 <= i < index ==> path_less(#[trigger] self.paths()[i], path),
            forall|i: int| index <= i < self.paths().len() ==> path_less(path, #[trigger] self.paths()[i]),
        ensures
            !self@.contains_key(path),
    {
        if self.paths().contains(path) {
            let i = self.paths().index_of(path);
            lemma_path_trichotomy(path, path);
            assert(self.paths()[i] == path);
        }
    }

    /// The value at `path`, if there is one.
    pub fn get(&self, path: &SettingsPath) -> (value: Option<&T>)
        requires
            self.wf(),
        ensures
            match value {
                Some(v) => self@.contains_key(path@) && *v == self@[path@],
                None => !self@.contains_key(path@),
            },
    {
        match self.search(path) {
            Ok(index) => {
                proof {
                    self.lemma_entry(index as int);
                }
                Some(&self.entries[index].1)
            },
            Err(index) => {
                proof {
                    self.lemma_absent(path@, index as int);
                }
                None
            },
        }
    }

    /// Puts `value` at `path`, in place of any value there.
    pub fn insert(&mut self, path: SettingsPath, value: T)
        requires
            old(self).wf(),
        ensures
            final(self).wf(),
            final(self)@ == old(self)@.insert(path@, value),
    {
        let ghost before = *self;
        let ghost old_paths = self.paths();
        match self.search(&path) {
            Ok(index) => {
                self.entries[index] = (path, value);
                assert(self.paths() =~= old_paths);
                proof {
                    assert forall|p: PathView| #[trigger] self@.contains_key(p) implies self@[p]
                        == before@.insert(path@, value)[p] by {
                        self.lemma_entry(index as int);
                        let i = self.paths().index_of(p);
                        assert(self.paths()[i] == p);
                        self.lemma_entry(i);
                        before.lemma_entry(i);
                    }
                    before.lemma_entry(index as int);
                    assert(self@ =~= before@.insert(path@, value));
                }
            },
            Err(index) => {
                proof {
                    self.lemma_absent(path@, index as int);
                }
                self.entries.insert(index, (path, value));
                assert(self.paths() =~= old_paths.insert(index as int, path@));
                proof {
                    assert(self.wf());
                    self.lemma_entry(index as int);
                    assert forall|p: PathView| #![trigger self@.contains_key(p)]
                        self@.contains_key(p) == before@.insert(path@, value).contains_key(p) by {
                        if self.paths().contains(p) && p != path@ {
                            let i = self.paths().index_of(p);
                            assert(self.paths()[i] == p);
                            assert(old_paths[if i < index { i } else { i - 1 }] == p);
                        }
                        if old_paths.contains(p) {
                            let k = old_paths.index_of(p);
                            assert(old_paths[k] == p);
                            assert(self.paths()[if k < index { k } else { k + 1 }] == p);
                        }
                    }
                    assert forall|p: PathView| #[trigger] self@.contains_key(p) implies self@[p]
                        == before@.insert(path@, value)[p] by {
                        let i = self.paths().index_of(p);
                        assert(self.paths()[i] == p);
                        self.lemma_entry(i);
                        if i != index {
                            before.lemma_entry(if i < index { i } else { i - 1 });
                        }
                    }
                    assert(self@ =~= before@.insert(path@, value));
                }
            },
        }
    }

    /// Takes out the entry at `path`, if there is one.
    pub fn remove(&mut self, path: &SettingsPath) -> (value: Option<T>)
        requires
            old(self).wf(),
        ensures
            final(self).wf(),
            final(self)@ == old(self)@.remove(path@),
            match value {
                Some(v) => old(self)@.contains_key(path@) && v == old(self)@[path@],
                None => !old(self)@.contains_key(path@),
            },
    {
        let ghost before = *self;
        let ghost old_paths = self.paths();
        match self.search(path) {
            Ok(index) => {
                proof {
                    self.lemma_entry(index as int);
                }
                let entry = self.entries.remove(index);
                assert(self.paths() =~= old_paths.remove(index as int));
                proof {
                    before.lemma_paths();
                    assert(self.wf());
                    assert forall|p: PathView| #![trigger self@.contains_key(p)]
                        self@.contains_key(p) == before@.remove(path@).contains_key(p) by {
                        if self.paths().contains(p) {
                            let i = self.paths().index_of(p);
                            let k = if i < index { i } else { i + 1 };
                            assert(old_paths[k] == p);
                            lemma_path_trichotomy(p, p);
                            if k < index {
                                assert(path_less(old_paths[k], old_paths[index as int]));
                            } else {
                                assert(path_less(old_paths[index as int], old_paths[k]));
                            }
                        }
                        if old_paths.contains(p) && p != path@ {
                            let k = old_paths.index_of(p);
                            assert(old_paths[k] == p);
                            let i = if k < index { k } else { k - 1 };
                            assert(self.paths()[i] == p);
                        }
                    }
                    assert forall|p: PathView| #[trigger] self@.contains_key(p) implies self@[p]
                        == before@.remove(path@)[p] by {
                        let i = self.paths().index_of(p);
                        assert(self.paths()[i] == p);
                        self.lemma_entry(i);
                        before.lemma_entry(if i < index { i } else { i + 1 });
                    }
                    assert(self@ =~= before@.remove(path@));
                }
                Some(entry.1)
            },
            Err(index) => {
                proof {
                    self.lemma_absent(path@, index as int);
                    assert(self@ =~= before@.remove(path@));
                }
                None
            },
        }
    }
}

} // verus!
