//! Resolving a declared dependency to the concrete package it points at.
//!
//! Preferred strategy: follow the externally computed resolved dependency
//! graph, which accounts for renames and for several same-named external
//! packages. Without that graph only workspace members are resolvable, by
//! exact name. An unresolvable dependency (optional and disabled, dev- or
//! build-only, excluded by a target filter) is a dead end, not an error.

use vstd::prelude::*;

use crate::model::{
    find_package, find_package_from, lemma_find_package_some, Dependency, Metadata, NodeDep,
    Package, ResolveNode,
};
use crate::text::{eq_norm_dash, norm_dash};

verus! {

/// The name under which a dependency is addressed by implication specs: its
/// local alias when it is renamed, else its declared package name.
pub open spec fn dep_effective_name(d: Dependency) -> Seq<char> {
    match d.rename {
        Some(r) => r@,
        None => d.name@,
    }
}

/// The effective name of `d` as a borrowed string.
pub fn effective_name(d: &Dependency) -> (r: &String)
    ensures
        r@ == dep_effective_name(*d),
{
    match &d.rename {
        Some(r) => r,
        None => &d.name,
    }
}

/// The index of the first resolve node from `k` on whose id reads `id`.
pub open spec fn find_node_from(nodes: Seq<ResolveNode>, id: Seq<char>, k: int) -> Option<int>
    decreases nodes.len() - k,
{
    if k < 0 || k >= nodes.len() {
        None
    } else if nodes[k].id@ == id {
        Some(k)
    } else {
        find_node_from(nodes, id, k + 1)
    }
}

/// The index of the first node-dependency entry from `k` on whose name reads
/// the dash-folded `name`.
pub open spec fn find_node_dep_from(deps: Seq<NodeDep>, name: Seq<char>, k: int) -> Option<int>
    decreases deps.len() - k,
{
    if k < 0 || k >= deps.len() {
        None
    } else if deps[k].name@ == norm_dash(name) {
        Some(k)
    } else {
        find_node_dep_from(deps, name, k + 1)
    }
}

/// The index of the first workspace member from `k` on whose name reads
/// `name`.
pub open spec fn find_member_from(meta: Metadata, name: Seq<char>, k: int) -> Option<int>
    decreases meta.packages@.len() - k,
{
    if k < 0 || k >= meta.packages@.len() {
        None
    } else if meta.packages@[k].name@ == name && meta.spec_is_workspace_member(
        meta.packages@[k].id@,
    ) {
        Some(k)
    } else {
        find_member_from(meta, name, k + 1)
    }
}

/// Resolution through the resolved dependency graph: find the depending
/// package's node, then the edge whose name matches the dependency's
/// dash-folded effective name, then the package the edge points to.
pub open spec fn spec_resolve_from_graph(meta: Metadata, p: Package, d: Dependency) -> Option<
    int,
> {
    match meta.resolve {
        Some(r) => match find_node_from(r.nodes@, p.id@, 0) {
            None => None,
            Some(ni) => match find_node_dep_from(r.nodes@[ni].deps@, dep_effective_name(d), 0) {
                None => None,
                Some(di) => find_package(meta.packages@, r.nodes@[ni].deps@[di].pkg@),
            },
        },
        None => None,
    }
}

/// Resolution among workspace members, by exact declared name: the first
/// member named like the dependency, looked up by its id.
pub open spec fn spec_resolve_from_workspace(meta: Metadata, d: Dependency) -> Option<int> {
    match find_member_from(meta, d.name@, 0) {
        None => None,
        Some(w) => find_package(meta.packages@, meta.packages@[w].id@),
    }
}

/// What [`resolve_dep`] returns: the resolved graph strategy when the
/// snapshot carries one, else the workspace strategy.
pub open spec fn spec_resolve(meta: Metadata, p: Package, d: Dependency) -> Option<int> {
    if meta.resolve is Some {
        spec_resolve_from_graph(meta, p, d)
    } else {
        spec_resolve_from_workspace(meta, d)
    }
}

/// Resolves the dependency `dep` of `pkg` within the resolved dependency
/// graph.
fn resolve_dep_from_graph(pkg: &Package, dep: &Dependency, meta: &Metadata) -> (r: Option<usize>)
    requires
        meta.resolve is Some,
    ensures
        match r {
            Some(i) => spec_resolve_from_graph(*meta, *pkg, *dep) == Some(i as int) && 0 <= i
                < meta.packages@.len(),
            None => spec_resolve_from_graph(*meta, *pkg, *dep) is None,
        },
{
    let nodes = match &meta.resolve {
        Some(r) => &r.nodes,
        None => {
            return None;
        },
    };
    let ni = match find_node(nodes, &pkg.id) {
        Some(ni) => ni,
        None => {
            return None;
        },
    };
    let eff = effective_name(dep);
    let di = match find_node_dep(&nodes[ni].deps, eff) {
        Some(di) => di,
        None => {
            return None;
        },
    };
    meta.find_package_by_id(&nodes[ni].deps[di].pkg)
}

/// Finds the resolve node for package id `id`.
fn find_node(nodes: &Vec<ResolveNode>, id: &String) -> (r: Option<usize>)
    ensures
        match r {
            Some(i) => find_node_from(nodes@, id@, 0) == Some(i as int) && 0 <= i < nodes@.len(),
            None => find_node_from(nodes@, id@, 0) is None,
        },
{
    let nn = nodes.len();
    let mut ni: usize = 0;
    while ni < nn
        invariant
            nn == nodes@.len(),
            0 <= ni <= nn,
            forall|m: int| 0 <= m < ni ==> nodes@[m].id@ != id@,
        decreases nn - ni,
    {
        if nodes[ni].id.eq(id) {
            proof {
                lemma_find_node_prefix(nodes@, id@, ni as int);
            }
            return Some(ni);
        }
        ni += 1;
    }
    proof {
        lemma_find_node_prefix(nodes@, id@, nn as int);
    }
    None
}

/// Finds the resolved edge whose name matches the dash-folded `name`.
fn find_node_dep(deps: &Vec<NodeDep>, name: &String) -> (r: Option<usize>)
    ensures
        match r {
            Some(i) => find_node_dep_from(deps@, name@, 0) == Some(i as int) && 0 <= i
                < deps@.len(),
            None => find_node_dep_from(deps@, name@, 0) is None,
        },
{
    let dn = deps.len();
    let mut di: usize = 0;
    while di < dn
        invariant
            dn == deps@.len(),
            0 <= di <= dn,
            forall|m: int| 0 <= m < di ==> deps@[m].name@ != norm_dash(name@),
        decreases dn - di,
    {
        if eq_norm_dash(deps[di].name.as_str(), name.as_str()) {
            proof {
                lemma_find_node_dep_prefix(deps@, name@, di as int);
            }
            return Some(di);
        }
        di += 1;
    }
    proof {
        lemma_find_node_dep_prefix(deps@, name@, dn as int);
    }
    None
}

/// Resolves the dependency `dep` among the workspace members, by exact name.
fn resolve_dep_from_workspace(dep: &Dependency, meta: &Metadata) -> (r: Option<usize>)
    ensures
        match r {
            Some(i) => spec_resolve_from_workspace(*meta, *dep) == Some(i as int) && 0 <= i
                < meta.packages@.len(),
            None => spec_resolve_from_workspace(*meta, *dep) is None,
        },
{
    let n = meta.packages.len();
    let mut w: usize = 0;
    while w < n
        invariant
            n == meta.packages@.len(),
            0 <= w <= n,
            forall|m: int|
                0 <= m < w ==> !(meta.packages@[m].name@ == dep.name@
                    && meta.spec_is_workspace_member(meta.packages@[m].id@)),
        decreases n - w,
    {
        if meta.packages[w].name.eq(&dep.name) && meta.is_workspace_member(&meta.packages[w].id) {
            proof {
                lemma_find_member_prefix(*meta, dep.name@, w as int);
                assert(find_member_from(*meta, dep.name@, 0) == Some(w as int));
            }
            return meta.find_package_by_id(&meta.packages[w].id);
        }
        w += 1;
    }
    proof {
        lemma_find_member_prefix(*meta, dep.name@, n as int);
    }
    None
}

/// Resolves the dependency `dep` of `pkg` within the snapshot `meta`,
/// returning the index of the concrete package it points at, or `None` for a
/// dead end. Callers must treat `None` as an unresolved dependency, not as
/// an error.
pub fn resolve_dep(pkg: &Package, dep: &Dependency, meta: &Metadata) -> (r: Option<usize>)
    ensures
        match r {
            Some(i) => spec_resolve(*meta, *pkg, *dep) == Some(i as int) && 0 <= i
                < meta.packages@.len(),
            None => spec_resolve(*meta, *pkg, *dep) is None,
        },
{
    match &meta.resolve {
        Some(_) => resolve_dep_from_graph(pkg, dep, meta),
        None => resolve_dep_from_workspace(dep, meta),
    }
}

proof fn lemma_find_node_prefix(nodes: Seq<ResolveNode>, id: Seq<char>, k: int)
    requires
        0 <= k <= nodes.len(),
        forall|m: int| 0 <= m < k ==> nodes[m].id@ != id,
    ensures
        find_node_from(nodes, id, 0) == find_node_from(nodes, id, k),
        k < nodes.len() && nodes[k].id@ == id ==> find_node_from(nodes, id, 0) == Some(k),
    decreases k,
{
    if k > 0 {
        lemma_find_node_prefix(nodes, id, k - 1);
    }
}

proof fn lemma_find_node_dep_prefix(deps: Seq<NodeDep>, name: Seq<char>, k: int)
    requires
        0 <= k <= deps.len(),
        forall|m: int| 0 <= m < k ==> deps[m].name@ != norm_dash(name),
    ensures
        find_node_dep_from(deps, name, 0) == find_node_dep_from(deps, name, k),
        k < deps.len() && deps[k].name@ == norm_dash(name) ==> find_node_dep_from(deps, name, 0)
            == Some(k),
    decreases k,
{
    if k > 0 {
        lemma_find_node_dep_prefix(deps, name, k - 1);
    }
}

proof fn lemma_find_member_prefix(meta: Metadata, name: Seq<char>, k: int)
    requires
        0 <= k <= meta.packages@.len(),
        forall|m: int|
            0 <= m < k ==> !(meta.packages@[m].name@ == name && meta.spec_is_workspace_member(
                meta.packages@[m].id@,
            )),
    ensures
        find_member_from(meta, name, 0) == find_member_from(meta, name, k),
    decreases k,
{
    if k > 0 {
        lemma_find_member_prefix(meta, name, k - 1);
    }
}

} // verus!
