//! The metadata snapshot: packages, their declared dependencies, and their
//! feature maps, exactly as the metadata adapter reports them.

use vstd::prelude::*;

verus! {

/// How a dependency is used by the package that declares it.
pub enum DepKind {
    /// An ordinary dependency.
    Normal,
    /// Only used by tests, examples and benchmarks.
    Dev,
    /// Only used by build scripts.
    Build,
}

/// One dependency declaration of a package, exactly as written in the owning
/// package's manifest and not yet resolved to a concrete package.
pub struct Dependency {
    /// The declared package name of the dependency.
    pub name: String,
    /// The local alias under which the dependency is imported, if any.
    pub rename: Option<String>,
    /// Whether the dependency's default features are enabled.
    pub uses_default_features: bool,
    /// The features requested on the dependency in the declaration itself.
    pub features: Vec<String>,
    /// How the dependency is used.
    pub kind: DepKind,
    /// Whether the dependency is optional.
    pub optional: bool,
    /// A platform filter, if the dependency is target-specific.
    pub target: Option<String>,
}

/// One concrete package instance of the snapshot.
pub struct Package {
    /// Opaque string uniquely identifying this package instance.
    pub id: String,
    /// The package's name.
    pub name: String,
    /// The package's version, rendered as text.
    pub version: String,
    /// Path of the package's manifest file.
    pub manifest_path: String,
    /// Where the package comes from, if it is not a workspace member.
    pub source: Option<String>,
    /// The dependencies the package declares.
    pub dependencies: Vec<Dependency>,
    /// The package's feature map: each feature name with its ordered list of
    /// raw implication spec strings. Keys are unique within a package.
    pub features: Vec<(String, Vec<String>)>,
}

/// One edge of the externally computed resolved dependency graph: a concrete
/// dependency of one resolved package.
pub struct NodeDep {
    /// The name under which the resolved package is reachable from the
    /// depending package (renames applied, dashes folded to underscores).
    pub name: String,
    /// The id of the package the edge points to.
    pub pkg: String,
}

/// One node of the resolved dependency graph.
pub struct ResolveNode {
    /// The id of the package this node describes.
    pub id: String,
    /// The concrete dependencies that are actually active for this package.
    pub deps: Vec<NodeDep>,
}

/// The externally computed, post-feature-unification dependency graph.
pub struct Resolve {
    /// One node per resolved package.
    pub nodes: Vec<ResolveNode>,
}

/// A snapshot of package metadata for one workspace: all packages (members
/// and external dependencies), the ids of the workspace members, and, when
/// the full dependency closure was requested, the resolved dependency graph.
pub struct Metadata {
    /// All packages of the snapshot.
    pub packages: Vec<Package>,
    /// The ids of the workspace members, a subset of the package ids.
    pub workspace_members: Vec<String>,
    /// The resolved dependency graph, absent in workspace-only mode.
    pub resolve: Option<Resolve>,
}

/// The index of the first package of `pkgs` from position `k` on whose id
/// reads `id`, if any.
pub open spec fn find_package_from(pkgs: Seq<Package>, id: Seq<char>, k: int) -> Option<int>
    decreases pkgs.len() - k,
{
    if k < 0 || k >= pkgs.len() {
        None
    } else if pkgs[k].id@ == id {
        Some(k)
    } else {
        find_package_from(pkgs, id, k + 1)
    }
}

/// The index of the first package of `pkgs` whose id reads `id`, if any.
pub open spec fn find_package(pkgs: Seq<Package>, id: Seq<char>) -> Option<int> {
    find_package_from(pkgs, id, 0)
}

/// Properties of a found package index: it is in range, it carries the id,
/// and no earlier package does.
pub proof fn lemma_find_package_some(pkgs: Seq<Package>, id: Seq<char>, k: int)
    requires
        0 <= k <= pkgs.len(),
        forall|m: int| 0 <= m < k ==> pkgs[m].id@ != id,
    ensures
        find_package(pkgs, id) == find_package_from(pkgs, id, k),
    decreases k,
{
    if k > 0 {
        lemma_find_package_some(pkgs, id, k - 1);
    }
}

impl Metadata {
    /// The snapshot invariant: package ids identify packages uniquely, and
    /// every package's feature names are unique within that package.
    pub open spec fn wf(&self) -> bool {
        &&& (forall|p: int|
            0 <= p < self.packages@.len() ==> features_unique(
                (#[trigger] self.packages@[p]).features@,
            ))
        &&& (forall|p1: int, p2: int|
            0 <= p1 < p2 < self.packages@.len() ==> self.packages@[p1].id@
                != self.packages@[p2].id@)
    }

    /// Whether the package id `id` belongs to a workspace member.
    pub open spec fn spec_is_workspace_member(&self, id: Seq<char>) -> bool {
        exists|i: int|
            0 <= i < self.workspace_members@.len() && self.workspace_members@[i]@ == id
    }

    /// Finds the package with id `id`, scanning in snapshot order.
    pub fn find_package_by_id(&self, id: &String) -> (r: Option<usize>)
        ensures
            r matches Some(i) ==> find_package(self.packages@, id@) == Some(i as int) && 0 <= i
                < self.packages@.len() && self.packages@[i as int].id@ == id@,
            r is None ==> find_package(self.packages@, id@) is None,
    {
        let n = self.packages.len();
        let mut i: usize = 0;
        while i < n
            invariant
                n == self.packages@.len(),
                0 <= i <= n,
                forall|m: int| 0 <= m < i ==> self.packages@[m].id@ != id@,
            decreases n - i,
        {
            if self.packages[i].id.eq(id) {
                proof {
                    lemma_find_package_some(self.packages@, id@, i as int);
                }
                return Some(i);
            }
            i += 1;
        }
        proof {
            lemma_find_package_some(self.packages@, id@, n as int);
        }
        None
    }

    /// Whether `id` is the id of a workspace member.
    pub fn is_workspace_member(&self, id: &String) -> (r: bool)
        ensures
            r == self.spec_is_workspace_member(id@),
    {
        let n = self.workspace_members.len();
        let mut i: usize = 0;
        while i < n
            invariant
                n == self.workspace_members@.len(),
                0 <= i <= n,
                forall|m: int| 0 <= m < i ==> self.workspace_members@[m]@ != id@,
            decreases n - i,
        {
            if self.workspace_members[i].eq(id) {
                return true;
            }
            i += 1;
        }
        false
    }
}

/// Whether some string of `list` reads `x`.
pub open spec fn spec_contains_string(list: Seq<String>, x: Seq<char>) -> bool {
    exists|i: int| 0 <= i < list.len() && list[i]@ == x
}

/// Whether some string of `list` reads `x`.
pub fn contains_string(list: &Vec<String>, x: &String) -> (r: bool)
    ensures
        r == spec_contains_string(list@, x@),
{
    let n = list.len();
    let mut i: usize = 0;
    while i < n
        invariant
            n == list@.len(),
            0 <= i <= n,
            forall|m: int| 0 <= m < i ==> list@[m]@ != x@,
        decreases n - i,
    {
        if list[i].eq(x) {
            assert(spec_contains_string(list@, x@));
            return true;
        }
        i += 1;
    }
    false
}

/// Appending keeps every string a list already holds, and makes the new one
/// held.
pub proof fn lemma_contains_string_push(list: Seq<String>, e: String, x: Seq<char>)
    ensures
        spec_contains_string(list, x) ==> spec_contains_string(list.push(e), x),
        spec_contains_string(list.push(e), e@),
{
    if spec_contains_string(list, x) {
        let i = choose|i: int| 0 <= i < list.len() && list[i]@ == x;
        assert(list.push(e)[i]@ == x);
    }
    assert(list.push(e)[list.len() as int]@ == e@);
}

/// The implication list of the first feature of `features` named `name`,
/// if any.
pub open spec fn spec_get_feature(features: Seq<(String, Vec<String>)>, name: Seq<char>) -> Option<
    Seq<String>,
> {
    if exists|i: int| 0 <= i < features.len() && features[i].0@ == name {
        Some(features[choose|i: int| 0 <= i < features.len() && features[i].0@ == name].1@)
    } else {
        None
    }
}

/// Whether `features` declares a feature named `name`.
pub open spec fn spec_has_feature(features: Seq<(String, Vec<String>)>, name: Seq<char>) -> bool {
    exists|i: int| 0 <= i < features.len() && features[i].0@ == name
}

/// Whether the feature names of `features` are pairwise distinct.
pub open spec fn features_unique(features: Seq<(String, Vec<String>)>) -> bool {
    forall|i: int, j: int|
        0 <= i < j < features.len() ==> features[i].0@ != features[j].0@
}

/// Looks up feature `name` in a feature map with unique keys.
pub fn get_feature<'a>(features: &'a Vec<(String, Vec<String>)>, name: &String) -> (r: Option<
    &'a Vec<String>,
>)
    requires
        features_unique(features@),
    ensures
        match r {
            Some(list) => spec_get_feature(features@, name@) == Some(list@),
            None => spec_get_feature(features@, name@) is None,
        },
{
    let n = features.len();
    let mut i: usize = 0;
    while i < n
        invariant
            n == features@.len(),
            0 <= i <= n,
            features_unique(features@),
            forall|m: int| 0 <= m < i ==> features@[m].0@ != name@,
        decreases n - i,
    {
        if features[i].0.eq(name) {
            return Some(&features[i].1);
        }
        i += 1;
    }
    None
}

/// Whether `features` declares a feature named `name`.
pub fn has_feature(features: &Vec<(String, Vec<String>)>, name: &String) -> (r: bool)
    ensures
        r == spec_has_feature(features@, name@),
{
    let n = features.len();
    let mut i: usize = 0;
    while i < n
        invariant
            n == features@.len(),
            0 <= i <= n,
            forall|m: int| 0 <= m < i ==> features@[m].0@ != name@,
        decreases n - i,
    {
        if features[i].0.eq(name) {
            return true;
        }
        i += 1;
    }
    false
}

} // verus!
