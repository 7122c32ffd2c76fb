//! Directory paths, as the sequence of their components.
use vstd::prelude::*;

use crate::order::{bytes_order, lemma_bytes_order, lemma_lex_order};
use crate::order::{compare_bytes, Comparison};
use crate::order::{lex_less, splits_at, strict_total_order};

verus! {

/// The kinds of path components, in the order in which paths sort them.
#[derive(Clone, Copy, PartialEq, Eq, Debug)]
pub enum ComponentKind {
    /// A verbatim prefix, with one name.
    Verbatim,
    /// A verbatim prefix of a network share, with the names of the server and the share.
    VerbatimUnc,
    /// A verbatim prefix of a disk, with the drive letter in upper case.
    VerbatimDisk,
    /// A prefix of the device namespace, with one name.
    DeviceNs,
    /// A prefix of a network share, with the names of the server and the share.
    Unc,
    /// A prefix of a disk, with the drive letter in upper case.
    Disk,
    /// The root directory, without a name.
    RootDir,
    /// The current directory, without a name.
    CurDir,
    /// The parent directory, without a name.
    ParentDir,
    /// A file or directory, with its name.
    Normal,
}

/// The position of `kind` in the order of kinds.
pub open spec fn kind_rank(kind: ComponentKind) -> int {
    match kind {
        ComponentKind::Verbatim => 0,
        ComponentKind::VerbatimUnc => 1,
        ComponentKind::VerbatimDisk => 2,
        ComponentKind::DeviceNs => 3,
        ComponentKind::Unc => 4,
        ComponentKind::Disk => 5,
        ComponentKind::RootDir => 6,
        ComponentKind::CurDir => 7,
        ComponentKind::ParentDir => 8,
        ComponentKind::Normal => 9,
    }
}

/// The mathematical model of a path component.
#[verifier::ext_equal]
pub struct ComponentView {
    pub kind: ComponentKind,
    pub names: Seq<Seq<u8>>,
}

/// The mathematical model of a path: its components, outermost first.
pub type PathView = Seq<ComponentView>;

/// The order of the names of components of one kind: lexicographic.
pub open spec fn names_less(a: Seq<Seq<u8>>, b: Seq<Seq<u8>>) -> bool {
    lex_less(bytes_order(), a, b)
}

/// [`names_less`] as a function value.
pub open spec fn names_order() -> spec_fn(Seq<Seq<u8>>, Seq<Seq<u8>>) -> bool {
    |a: Seq<Seq<u8>>, b: Seq<Seq<u8>>| names_less(a, b)
}

/// The order of components: by kind, and by name among those of one kind.
pub open spec fn component_less(a: ComponentView, b: ComponentView) -> bool {
    kind_rank(a.kind) < kind_rank(b.kind) || (a.kind == b.kind && names_less(a.names, b.names))
}

/// [`component_less`] as a function value.
pub open spec fn component_order() -> spec_fn(ComponentView, ComponentView) -> bool {
    |a: ComponentView, b: ComponentView| component_less(a, b)
}

/// The order of paths: lexicographic by component.
pub open spec fn path_less(a: PathView, b: PathView) -> bool {
    lex_less(component_order(), a, b)
}

/// [`path_less`] as a function value.
pub open spec fn path_order() -> spec_fn(PathView, PathView) -> bool {
    |a: PathView, b: PathView| path_less(a, b)
}

/// `path` is `base` itself or lies below it. Only whole components count.
pub open spec fn path_starts_with(path: PathView, base: PathView) -> bool {
    base.len() <= path.len() && path.take(base.len() as int) == base
}

/// Lists of names are strictly and totally ordered.
pub proof fn lemma_names_order()
    ensures
        strict_total_order(names_order()),
{
    lemma_bytes_order();
    lemma_lex_order(bytes_order());
    assert(names_order() =~= (|a: Seq<Seq<u8>>, b: Seq<Seq<u8>>| lex_less(bytes_order(), a, b)));
}

/// Components are strictly and totally ordered.
pub proof fn lemma_component_order()
    ensures
        strict_total_order(component_order()),
{
    lemma_names_order();
    let less = component_order();
    let names = names_order();
    assert forall|x: ComponentView| !(#[trigger] less(x, x)) by {
        assert(!names(x.names, x.names));
    }
    assert forall|x: ComponentView, y: ComponentView, z: ComponentView| #[trigger]
        less(x, y) && #[trigger] less(y, z) implies less(x, z) by {
        assert(names(x.names, y.names) && names(y.names, z.names) ==> names(x.names, z.names));
    }
    assert forall|x: ComponentView, y: ComponentView| x == y || #[trigger] less(x, y) || #[trigger] less(
        y,
        x,
    ) by {
        assert(x.names == y.names || names(x.names, y.names) || names(y.names, x.names));
        if x.kind == y.kind && x.names == y.names {
            assert(x =~= y);
        }
    }
}

/// Paths are strictly and totally ordered.
pub proof fn lemma_path_order()
    ensures
        strict_total_order(path_order()),
{
    lemma_component_order();
    lemma_lex_order(component_order());
    assert(path_order() =~= (|a: PathView, b: PathView| lex_less(component_order(), a, b)));
}

/// Any two paths are equal or ordered one way, and never both ways.
pub proof fn lemma_path_trichotomy(a: PathView, b: PathView)
    ensures
        a == b || path_less(a, b) || path_less(b, a),
        !(path_less(a, b) && path_less(b, a)),
        !path_less(a, a),
{
    lemma_path_order();
    assert(path_order()(a, b) == path_less(a, b));
    assert(path_order()(b, a) == path_less(b, a));
    assert(!path_order()(a, a));
}

/// The order of paths is transitive.
pub proof fn lemma_path_transitive(a: PathView, b: PathView, c: PathView)
    requires
        path_less(a, b),
        path_less(b, c),
    ensures
        path_less(a, c),
{
    lemma_path_order();
    assert(path_order()(a, b) && path_order()(b, c));
    assert(path_order()(a, c));
}

/// A directory comes before everything below it.
pub proof fn lemma_prefix_less(path: PathView, base: PathView)
    requires
        path_starts_with(path, base),
        path != base,
    ensures
        path_less(base, path),
{
    if base.len() == path.len() {
        assert(path.take(base.len() as int) =~= path);
    }
    assert forall|j: int| 0 <= j < base.len() implies base[j] == path[j] by {
        assert(path.take(base.len() as int)[j] == path[j]);
    }
    assert(splits_at(component_order(), base, path, base.len() as int));
}

impl ComponentKind {
    /// The position of this kind in the order of kinds.
    fn rank(self) -> (rank: u8)
        ensures
            rank == kind_rank(self),
    {
        match self {
            ComponentKind::Verbatim => 0,
            ComponentKind::VerbatimUnc => 1,
            ComponentKind::VerbatimDisk => 2,
            ComponentKind::DeviceNs => 3,
            ComponentKind::Unc => 4,
            ComponentKind::Disk => 5,
            ComponentKind::RootDir => 6,
            ComponentKind::CurDir => 7,
            ComponentKind::ParentDir => 8,
            ComponentKind::Normal => 9,
        }
    }
}

/// Compares two lists of names.
fn compare_names(a: &Vec<Vec<u8>>, b: &Vec<Vec<u8>>) -> (result: Comparison)
    ensures
        ({
            let x = a@.map_values(|name: Vec<u8>| name@);
            let y = b@.map_values(|name: Vec<u8>| name@);
            match result {
                Comparison::Less => names_less(x, y),
                Comparison::Equal => x == y,
                Comparison::Greater => names_less(y, x),
            }
        }),
{
    let ghost x = a@.map_values(|name: Vec<u8>| name@);
    let ghost y = b@.map_values(|name: Vec<u8>| name@);
    let mut i: usize = 0;
    while i < a.len() && i < b.len()
        invariant
            i <= a.len(),
            i <= b.len(),
            x == a@.map_values(|name: Vec<u8>| name@),
            y == b@.map_values(|name: Vec<u8>| name@),
            forall|j: int| 0 <= j < i ==> x[j] == y[j],
        decreases a.len() - i,
    {
        match compare_bytes(a[i].as_slice(), b[i].as_slice()) {
            Comparison::Less => {
                assert(splits_at(bytes_order(), x, y, i as int));
                return Comparison::Less;
            },
            Comparison::Greater => {
                assert(splits_at(bytes_order(), y, x, i as int));
                return Comparison::Greater;
            },
            Comparison::Equal => {},
        }
        i = i + 1;
    }
    if i < b.len() {
        assert(splits_at(bytes_order(), x, y, i as int));
        Comparison::Less
    } else if i < a.len() {
        assert(splits_at(bytes_order(), y, x, i as int));
        Comparison::Greater
    } else {
        assert(x =~= y);
        Comparison::Equal
    }
}

/// One component of a path: its kind, and the bytes of its names as the platform encodes them.
pub struct PathComponent {
    pub kind: ComponentKind,
    pub names: Vec<Vec<u8>>,
}

impl View for PathComponent {
    type V = ComponentView;

    open spec fn view(&self) -> ComponentView {
        ComponentView { kind: self.kind, names: self.names@.map_values(|name: Vec<u8>| name@) }
    }
}

impl Clone for PathComponent {
    fn clone(&self) -> (result: Self)
        ensures
            result@ == self@,
    {
        let mut names: Vec<Vec<u8>> = Vec::new();
        let mut i: usize = 0;
        while i < self.names.len()
            invariant
                i <= self.names.len(),
                names.len() == i,
                forall|j: int| 0 <= j < i ==> (#[trigger] names@[j])@ == self.names@[j]@,
            decreases self.names.len() - i,
        {
            let name = self.names[i].clone();
            assert(name@ =~= self.names@[i as int]@);
            names.push(name);
            i = i + 1;
        }
        let result = PathComponent { kind: self.kind, names };
        assert(result@.names =~= self@.names);
        result
    }
}

impl PathComponent {
    /// Compares two components, by kind and then by name.
    pub fn compare(&self, other: &PathComponent) -> (result: Comparison)
        ensures
            match result {
                Comparison::Less => component_less(self@, other@),
                Comparison::Equal => self@ == other@,
                Comparison::Greater => component_less(other@, self@),
            },
    {
        let (a, b): (u8, u8) = (self.kind.rank(), other.kind.rank());
        if a < b {
            Comparison::Less
        } else if b < a {
            Comparison::Greater
        } else {
            compare_names(&self.names, &other.names)
        }
    }
}

/// A directory path, as the list of its components.
pub struct SettingsPath {
    components: Vec<PathComponent>,
}

impl View for SettingsPath {
    type V = PathView;

    closed spec fn view(&self) -> PathView {
        self.components@.map_values(|c: PathComponent| c@)
    }
}

impl Clone for SettingsPath {
    fn clone(&self) -> (result: Self)
        ensures
            result@ == self@,
    {
        let mut components: Vec<PathComponent> = Vec::new();
        let mut i: usize = 0;
        while i < self.components.len()
            invariant
                i <= self.components.len(),
                components.len() == i,
                forall|j: int| 0 <= j < i ==> (#[trigger] components@[j])@ == self.components@[j]@,
            decreases self.components.len() - i,
        {
            let component = self.components[i].clone();
            components.push(component);
            i = i + 1;
        }
        let result = SettingsPath { components };
        assert(result@ =~= self@);
        result
    }
}

impl SettingsPath {
    /// The path with the given components, outermost first.
    pub fn new(components: Vec<PathComponent>) -> (path: Self)
        ensures
            path@ == components@.map_values(|c: PathComponent| c@),
    {
        SettingsPath { components }
    }

    /// Compares two paths component by component.
    pub fn compare(&self, other: &SettingsPath) -> (result: Comparison)
        ensures
            result == (if self@ == other@ {
                Comparison::Equal
            } else if path_less(self@, other@) {
                Comparison::Less
            } else {
                Comparison::Greater
            }),
            result is Greater <==> path_less(other@, self@),
    {
        proof {
            lemma_path_trichotomy(self@, other@);
        }
        let mut i: usize = 0;
        while i < self.components.len() && i < other.components.len()
            invariant
                i <= self.components.len(),
                i <= other.components.len(),
                forall|j: int| 0 <= j < i ==> self@[j] == other@[j],
                self@ == other@ || path_less(self@, other@) || path_less(other@, self@),
                !(path_less(self@, other@) && path_less(other@, self@)),
                self@ == other@ ==> !path_less(self@, other@),
            decreases self.components.len() - i,
        {
            match self.components[i].compare(&other.components[i]) {
                Comparison::Less => {
                    assert(splits_at(component_order(), self@, other@, i as int));
                    return Comparison::Less;
                },
                Comparison::Greater => {
                    assert(splits_at(component_order(), other@, self@, i as int));
                    return Comparison::Greater;
                },
                Comparison::Equal => {},
            }
            i = i + 1;
        }
        if i < other.components.len() {
            assert(splits_at(component_order(), self@, other@, i as int));
            Comparison::Less
        } else if i < self.components.len() {
            assert(splits_at(component_order(), other@, self@, i as int));
            Comparison::Greater
        } else {
            assert(self@ =~= other@);
            Comparison::Equal
        }
    }

    /// Whether `base` is this path or one of the directories it lies in.
    pub fn starts_with(&self, base: &SettingsPath) -> (result: bool)
        ensures
            result == path_starts_with(self@, base@),
    {
        if base.components.len() > self.components.len() {
            return false;
        }
        let mut i: usize = 0;
        while i < base.components.len()
            invariant
                i <= base.components.len() <= self.components.len(),
                forall|j: int| 0 <= j < i ==> self@[j] == base@[j],
            decreases base.components.len() - i,
        {
            match self.components[i].compare(&base.components[i]) {
                Comparison::Equal => {},
                _ => {
                    proof {
                        lemma_component_order();
                        assert(!component_order()(self@[i as int], self@[i as int]));
                        if path_starts_with(self@, base@) {
                            assert(self@.take(base@.len() as int)[i as int] == self@[i as int]);
                        }
                    }
                    return false;
                },
            }
            i = i + 1;
        }
        assert(self@.take(base@.len() as int) =~= base@);
        true
    }
}

} // verus!
