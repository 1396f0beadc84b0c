//! The dependency graph that a lockfile records, and the part of `package.json`
//! that lockfiles are read and written against.

use vstd::prelude::*;
use crate::string_map::StringMap;

verus! {

/// The section of `package.json` that a direct dependency is declared in.
#[derive(Debug, Clone, Copy, PartialEq, Eq, Structural)]
pub enum DepType {
    Production,
    Dev,
    Optional,
}

/// A dependency that a project declares itself.
#[derive(Debug)]
pub struct DirectDep {
    pub name: String,
    /// The key in [`LockfileGraph::packages`] that the dependency resolved to.
    pub dep_path: String,
    pub dep_type: DepType,
    pub specifier: Option<String>,
}

/// A resolved package.
#[derive(Debug)]
pub struct LockedPackage {
    pub name: String,
    pub version: String,
    pub integrity: Option<String>,
    /// Dependency names with what they resolved to: a full `name@version` path
    /// or the part of it behind `name@`.
    pub dependencies: StringMap<String>,
    pub dep_path: String,
    pub os: Vec<String>,
    pub cpu: Vec<String>,
    pub libc: Vec<String>,
}

/// Everything that a lockfile says.
#[derive(Debug)]
pub struct LockfileGraph {
    /// Direct dependencies by the path of the importing project; `.` is the root.
    pub importers: StringMap<Vec<DirectDep>>,
    /// Resolved packages by their dependency path.
    pub packages: StringMap<LockedPackage>,
}

/// The dependency sections of a `package.json`, each from names to ranges.
#[derive(Debug)]
pub struct PackageJson {
    pub dependencies: StringMap<String>,
    pub dev_dependencies: StringMap<String>,
    pub optional_dependencies: StringMap<String>,
    pub peer_dependencies: StringMap<String>,
}

/// Entries from texts to texts in ascending order of the keys.
pub type TextEntries = Seq<(Seq<char>, Seq<char>)>;

#[verifier::ext_equal]
pub struct DirectDepView {
    pub name: Seq<char>,
    pub dep_path: Seq<char>,
    pub dep_type: DepType,
    pub specifier: Option<Seq<char>>,
}

#[verifier::ext_equal]
pub struct PackageView {
    pub name: Seq<char>,
    pub version: Seq<char>,
    pub integrity: Option<Seq<char>>,
    pub dependencies: TextEntries,
    pub dep_path: Seq<char>,
    pub os: Seq<Seq<char>>,
    pub cpu: Seq<Seq<char>>,
    pub libc: Seq<Seq<char>>,
}

#[verifier::ext_equal]
pub struct GraphView {
    pub importers: Seq<(Seq<char>, Seq<DirectDepView>)>,
    pub packages: Seq<(Seq<char>, PackageView)>,
}

#[verifier::ext_equal]
pub struct ManifestView {
    pub dependencies: TextEntries,
    pub dev_dependencies: TextEntries,
    pub optional_dependencies: TextEntries,
    pub peer_dependencies: TextEntries,
}

/// The characters of an optional string.
pub open spec fn text_option(s: Option<String>) -> Option<Seq<char>> {
    match s {
        Some(t) => Some(t@),
        None => None,
    }
}

impl DeepView for DirectDep {
    type V = DirectDepView;

    open spec fn deep_view(&self) -> DirectDepView {
        DirectDepView {
            name: self.name@,
            dep_path: self.dep_path@,
            dep_type: self.dep_type,
            specifier: text_option(self.specifier),
        }
    }
}

impl DeepView for LockedPackage {
    type V = PackageView;

    open spec fn deep_view(&self) -> PackageView {
        PackageView {
            name: self.name@,
            version: self.version@,
            integrity: text_option(self.integrity),
            dependencies: self.dependencies@,
            dep_path: self.dep_path@,
            os: self.os.deep_view(),
            cpu: self.cpu.deep_view(),
            libc: self.libc.deep_view(),
        }
    }
}

impl View for LockfileGraph {
    type V = GraphView;

    open spec fn view(&self) -> GraphView {
        GraphView { importers: self.importers@, packages: self.packages@ }
    }
}

impl View for PackageJson {
    type V = ManifestView;

    open spec fn view(&self) -> ManifestView {
        ManifestView {
            dependencies: self.dependencies@,
            dev_dependencies: self.dev_dependencies@,
            optional_dependencies: self.optional_dependencies@,
            peer_dependencies: self.peer_dependencies@,
        }
    }
}

impl PackageJson {
    /// A manifest that declares no dependencies.
    pub fn new() -> (r: Self)
        ensures
            r@ == (ManifestView {
                dependencies: seq![],
                dev_dependencies: seq![],
                optional_dependencies: seq![],
                peer_dependencies: seq![],
            }),
    {
        PackageJson {
            dependencies: StringMap::new(),
            dev_dependencies: StringMap::new(),
            optional_dependencies: StringMap::new(),
            peer_dependencies: StringMap::new(),
        }
    }
}

} // verus!
