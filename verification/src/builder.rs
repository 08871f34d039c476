//! Building the implication graph from a metadata snapshot.
//!
//! For every package, its dependency declarations contribute edges out of
//! the package's `default` feature, and every entry of its feature map is
//! parsed as one of the recognized implication forms and contributes one
//! edge. Malformed entries and references to unknown features or
//! dependencies abort the build: they indicate an inconsistent snapshot,
//! not a lint finding.

use vstd::prelude::*;

use crate::graph::{
    find_vert, has_edge, is_path, lemma_find_vert_from_some, spec_add_edge, spec_intern,
    spec_lhs_nodes, CrateAndFeature, Dag, DagView,
};
use crate::model::{has_feature, spec_has_feature, Dependency, Metadata, Package};
use crate::MetadataError;
use crate::resolve::{dep_effective_name, effective_name, resolve_dep, spec_resolve};
use crate::text::{
    contains_char, default_name, default_string, find_char, index_of, lemma_index_of_from_some,
    str_contains_char,
};

verus! {

/// One parsed implication spec: the target of a "enabling this feature
/// activates that" rule, before resolution.
pub enum ImplicationSpec {
    /// `dep:NAME`: activates the optional dependency `NAME`; modeled as
    /// implying the dependency's `default` feature.
    DepDefault { name: String },
    /// `NAME/FEATURE` or `NAME?/FEATURE`: implies `FEATURE` of the
    /// dependency addressed as `NAME`. The weak marker `?` is folded into
    /// the strong form for graph construction.
    DepFeature { name: String, feature: String },
    /// A bare token: implies another feature of the same package.
    OwnFeature { feature: String },
}

/// The shape of a raw implication spec string.
pub enum ImplicationForm {
    DepDefault { name: Seq<char> },
    DepFeature { name: Seq<char>, feature: Seq<char> },
    OwnFeature { feature: Seq<char> },
    /// None of the recognized forms.
    Malformed,
}

impl View for ImplicationSpec {
    type V = ImplicationForm;

    open spec fn view(&self) -> ImplicationForm {
        match self {
            ImplicationSpec::DepDefault { name } => ImplicationForm::DepDefault { name: name@ },
            ImplicationSpec::DepFeature { name, feature } => ImplicationForm::DepFeature {
                name: name@,
                feature: feature@,
            },
            ImplicationSpec::OwnFeature { feature } => ImplicationForm::OwnFeature {
                feature: feature@,
            },
        }
    }
}

/// How a raw implication spec string parses: `dep:` prefix first, then the
/// forwarded form around the first `/`, then a bare token. A stray `:`, a
/// second `/`, or a `?` anywhere but at the end of the dependency part is
/// malformed.
pub open spec fn parse_implication(s: Seq<char>) -> ImplicationForm {
    if s.len() >= 4 && s[0] == 'd' && s[1] == 'e' && s[2] == 'p' && s[3] == ':' {
        ImplicationForm::DepDefault { name: s.subrange(4, s.len() as int) }
    } else if contains_char(s, ':') {
        ImplicationForm::Malformed
    } else {
        match index_of(s, '/') {
            Some(i) => {
                let raw_name = s.subrange(0, i);
                let feature = s.subrange(i + 1, s.len() as int);
                if contains_char(feature, '/') || contains_char(feature, '?') {
                    ImplicationForm::Malformed
                } else {
                    let name = if raw_name.len() > 0 && raw_name.last() == '?' {
                        raw_name.drop_last()
                    } else {
                        raw_name
                    };
                    if contains_char(name, '?') {
                        ImplicationForm::Malformed
                    } else {
                        ImplicationForm::DepFeature { name, feature }
                    }
                }
            },
            None => {
                if contains_char(s, '?') {
                    ImplicationForm::Malformed
                } else {
                    ImplicationForm::OwnFeature { feature: s }
                }
            },
        }
    }
}

/// Parses one raw implication spec string; `None` for a malformed one.
pub fn parse_implication_spec(s: &String) -> (r: Option<ImplicationSpec>)
    ensures
        match r {
            Some(v) => v@ == parse_implication(s@) && !(parse_implication(s@) is Malformed),
            None => parse_implication(s@) is Malformed,
        },
{
    let st = s.as_str();
    let n = st.unicode_len();
    if n >= 4 && st.get_char(0) == 'd' && st.get_char(1) == 'e' && st.get_char(2) == 'p'
        && st.get_char(3) == ':' {
        let name = st.substring_char(4, n).to_owned();
        return Some(ImplicationSpec::DepDefault { name });
    }
    if str_contains_char(st, ':') {
        return None;
    }
    match find_char(st, '/') {
        Some(i) => {
            proof {
                lemma_index_of_from_some(s@, '/', 0, i as int);
            }
            let raw_name = st.substring_char(0, i);
            let feature_s = st.substring_char(i + 1, n);
            if str_contains_char(feature_s, '/') || str_contains_char(feature_s, '?') {
                return None;
            }
            let rn = raw_name.unicode_len();
            let name_str = if rn > 0 && raw_name.get_char(rn - 1) == '?' {
                let trimmed = raw_name.substring_char(0, rn - 1);
                proof {
                    assert(trimmed@ =~= raw_name@.drop_last());
                }
                trimmed
            } else {
                raw_name
            };
            if str_contains_char(name_str, '?') {
                return None;
            }
            Some(
                ImplicationSpec::DepFeature {
                    name: name_str.to_owned(),
                    feature: feature_s.to_owned(),
                },
            )
        },
        None => {
            if str_contains_char(st, '?') {
                return None;
            }
            proof {
                assert(s@.subrange(0, s@.len() as int) =~= s@);
            }
            Some(ImplicationSpec::OwnFeature { feature: s.clone() })
        },
    }
}

/// The index of the first dependency from `k` on whose effective name reads
/// `name`.
pub open spec fn find_dep_from(deps: Seq<Dependency>, name: Seq<char>, k: int) -> Option<int>
    decreases deps.len() - k,
{
    if k < 0 || k >= deps.len() {
        None
    } else if dep_effective_name(deps[k]) == name {
        Some(k)
    } else {
        find_dep_from(deps, name, k + 1)
    }
}

proof fn lemma_find_dep_prefix(deps: Seq<Dependency>, name: Seq<char>, k: int)
    requires
        0 <= k <= deps.len(),
        forall|m: int| 0 <= m < k ==> dep_effective_name(deps[m]) != name,
    ensures
        find_dep_from(deps, name, 0) == find_dep_from(deps, name, k),
        k < deps.len() && dep_effective_name(deps[k]) == name ==> find_dep_from(deps, name, 0)
            == Some(k),
    decreases k,
{
    if k > 0 {
        lemma_find_dep_prefix(deps, name, k - 1);
    }
}

/// Finds the dependency addressed by effective name `name`.
fn find_dep(deps: &Vec<Dependency>, name: &String) -> (r: Option<usize>)
    ensures
        match r {
            Some(i) => find_dep_from(deps@, name@, 0) == Some(i as int) && 0 <= i < deps@.len(),
            None => find_dep_from(deps@, name@, 0) is None,
        },
{
    let n = deps.len();
    let mut i: usize = 0;
    while i < n
        invariant
            n == deps@.len(),
            0 <= i <= n,
            forall|m: int| 0 <= m < i ==> dep_effective_name(deps@[m]) != name@,
        decreases n - i,
    {
        if effective_name(&deps[i]).eq(name) {
            proof {
                lemma_find_dep_prefix(deps@, name@, i as int);
            }
            return Some(i);
        }
        i += 1;
    }
    proof {
        lemma_find_dep_prefix(deps@, name@, n as int);
    }
    None
}

/// The id the graph uses for the target of dependency `d` of package `p`:
/// the resolved package's id, or, for a dead end, the declared name as a
/// placeholder.
pub open spec fn dep_target_id(meta: Metadata, p: int, d: int) -> Seq<char> {
    match spec_resolve(meta, meta.packages@[p], meta.packages@[p].dependencies@[d]) {
        Some(j) => meta.packages@[j].id@,
        None => meta.packages@[p].dependencies@[d].name@,
    }
}

/// Builds the target id string for dependency `d` of package `p`.
fn dep_target_string(meta: &Metadata, p: usize, d: usize) -> (r: String)
    requires
        0 <= p < meta.packages@.len(),
        0 <= d < meta.packages@[p as int].dependencies@.len(),
    ensures
        r@ == dep_target_id(*meta, p as int, d as int),
{
    let pkg = &meta.packages[p];
    let dep = &pkg.dependencies[d];
    match resolve_dep(pkg, dep, meta) {
        Some(j) => meta.packages[j].id.clone(),
        None => dep.name.clone(),
    }
}

/// What one entry of a package's feature map contributes to the graph: an
/// edge, or one of the three build-aborting defects.
pub enum EdgeOutcome {
    /// A well-formed entry: the edge it contributes.
    Edge { from: (Seq<char>, Seq<char>), to: (Seq<char>, Seq<char>) },
    /// The entry matches no recognized implication form.
    BadForm,
    /// A bare token naming a feature the package does not declare.
    BadOwnFeature,
    /// A `dep:`/forwarded entry naming a dependency the package does not
    /// declare.
    BadDependency,
}

/// The outcome of entry `si` of feature `fi` of package `p`.
pub open spec fn impl_edge(meta: Metadata, p: int, fi: int, si: int) -> EdgeOutcome {
    let pkg = meta.packages@[p];
    let feat = pkg.features@[fi].0@;
    let s = pkg.features@[fi].1@[si]@;
    let src = (pkg.id@, feat);
    match parse_implication(s) {
        ImplicationForm::Malformed => EdgeOutcome::BadForm,
        ImplicationForm::OwnFeature { feature } => {
            if spec_has_feature(pkg.features@, feature) {
                EdgeOutcome::Edge { from: src, to: (pkg.id@, feature) }
            } else {
                EdgeOutcome::BadOwnFeature
            }
        },
        ImplicationForm::DepDefault { name } => {
            match find_dep_from(pkg.dependencies@, name, 0) {
                None => EdgeOutcome::BadDependency,
                Some(d) => EdgeOutcome::Edge {
                    from: src,
                    to: (dep_target_id(meta, p, d), default_name()),
                },
            }
        },
        ImplicationForm::DepFeature { name, feature } => {
            match find_dep_from(pkg.dependencies@, name, 0) {
                None => EdgeOutcome::BadDependency,
                Some(d) => EdgeOutcome::Edge { from: src, to: (dep_target_id(meta, p, d), feature) },
            }
        },
    }
}

/// Whether every entry of every feature map of the snapshot contributes an
/// edge: the condition under which the build succeeds.
pub open spec fn no_build_error(meta: Metadata) -> bool {
    forall|p: int, fi: int, si: int|
        0 <= p < meta.packages@.len() && 0 <= fi < meta.packages@[p].features@.len() && 0 <= si
            < meta.packages@[p].features@[fi].1@.len() ==> #[trigger] impl_edge(meta, p, fi, si)
            is Edge
}

/// The graph after the requested-feature edges of the first `f` requested
/// features of dependency `d` of package `p`.
pub open spec fn req_feats_apply(meta: Metadata, g: DagView, p: int, d: int, f: int) -> DagView
    decreases f,
{
    if f <= 0 {
        g
    } else {
        let pkg = meta.packages@[p];
        let dep = pkg.dependencies@[d];
        spec_add_edge(
            req_feats_apply(meta, g, p, d, f - 1),
            (pkg.id@, default_name()),
            (dep_target_id(meta, p, d), dep.features@[f - 1]@),
        )
    }
}

/// The graph after all edges contributed by dependency declaration `d` of
/// package `p`.
pub open spec fn dep_apply(meta: Metadata, g: DagView, p: int, d: int) -> DagView {
    let pkg = meta.packages@[p];
    let dep = pkg.dependencies@[d];
    let g1 = if dep.uses_default_features {
        spec_add_edge(g, (pkg.id@, default_name()), (dep_target_id(meta, p, d), default_name()))
    } else {
        g
    };
    req_feats_apply(meta, g1, p, d, dep.features@.len() as int)
}

/// The graph after the first `d` dependency declarations of package `p`.
pub open spec fn deps_apply(meta: Metadata, g: DagView, p: int, d: int) -> DagView
    decreases d,
{
    if d <= 0 {
        g
    } else {
        dep_apply(meta, deps_apply(meta, g, p, d - 1), p, d - 1)
    }
}

/// The graph after the first `si` entries of feature `fi` of package `p`.
/// An entry that is a defect contributes nothing; the build aborts on it
/// anyway.
pub open spec fn specs_apply(meta: Metadata, g: DagView, p: int, fi: int, si: int) -> DagView
    decreases si,
{
    if si <= 0 {
        g
    } else {
        match impl_edge(meta, p, fi, si - 1) {
            EdgeOutcome::Edge { from, to } => spec_add_edge(
                specs_apply(meta, g, p, fi, si - 1),
                from,
                to,
            ),
            _ => specs_apply(meta, g, p, fi, si - 1),
        }
    }
}

/// The graph after the first `fi` features of package `p`.
pub open spec fn feats_apply(meta: Metadata, g: DagView, p: int, fi: int) -> DagView
    decreases fi,
{
    if fi <= 0 {
        g
    } else {
        specs_apply(
            meta,
            feats_apply(meta, g, p, fi - 1),
            p,
            fi - 1,
            meta.packages@[p].features@[fi - 1].1@.len() as int,
        )
    }
}

/// The graph after every edge of package `p`.
pub open spec fn pkg_apply(meta: Metadata, g: DagView, p: int) -> DagView {
    feats_apply(
        meta,
        deps_apply(meta, g, p, meta.packages@[p].dependencies@.len() as int),
        p,
        meta.packages@[p].features@.len() as int,
    )
}

/// The graph after the first `p` packages.
pub open spec fn build_upto(meta: Metadata, p: int) -> DagView
    decreases p,
{
    if p <= 0 {
        DagView::empty()
    } else {
        pkg_apply(meta, build_upto(meta, p - 1), p - 1)
    }
}

/// The implication graph of the whole snapshot: a function of the snapshot
/// alone, which makes the build reproducible.
pub open spec fn spec_build_graph(meta: Metadata) -> DagView {
    build_upto(meta, meta.packages@.len() as int)
}

/// Law: building the implication graph twice from the same snapshot yields
/// identical edge sets and an identical `lhs_nodes` ordering.
pub proof fn lemma_build_deterministic(meta: Metadata, g1: DagView, g2: DagView)
    requires
        g1 == spec_build_graph(meta),
        g2 == spec_build_graph(meta),
    ensures
        g1 == g2,
        spec_lhs_nodes(g1) == spec_lhs_nodes(g2),
{
}

/// Builds the implication graph of the snapshot: vertices are (package,
/// feature) pairs, edges read "activating the source activates the target".
/// Fails on the first malformed or unresolvable feature-map entry.
pub fn build_feature_dag(meta: &Metadata) -> (r: Result<Dag, MetadataError>)
    ensures
        r matches Ok(dag) ==> dag.wf() && dag@ == spec_build_graph(*meta) && no_build_error(
            *meta,
        ),
        r is Err ==> !no_build_error(*meta),
        r matches Err(e) ==> match e {
            MetadataError::MalformedImplication(s) => exists|p: int, fi: int, si: int|
                0 <= p < meta.packages@.len() && 0 <= fi < meta.packages@[p].features@.len() && 0
                    <= si < meta.packages@[p].features@[fi].1@.len() && #[trigger] impl_edge(
                    *meta,
                    p,
                    fi,
                    si,
                ) is BadForm && s@ == meta.packages@[p].features@[fi].1@[si]@,
            MetadataError::UnknownOwnFeature(s) => exists|p: int, fi: int, si: int|
                0 <= p < meta.packages@.len() && 0 <= fi < meta.packages@[p].features@.len() && 0
                    <= si < meta.packages@[p].features@[fi].1@.len() && #[trigger] impl_edge(
                    *meta,
                    p,
                    fi,
                    si,
                ) is BadOwnFeature && s@ == meta.packages@[p].features@[fi].1@[si]@,
            MetadataError::UnknownDependency(s) => exists|p: int, fi: int, si: int|
                0 <= p < meta.packages@.len() && 0 <= fi < meta.packages@[p].features@.len() && 0
                    <= si < meta.packages@[p].features@[fi].1@.len() && #[trigger] impl_edge(
                    *meta,
                    p,
                    fi,
                    si,
                ) is BadDependency && s@ == meta.packages@[p].features@[fi].1@[si]@,
            _ => false,
        },
{
    let mut dag = Dag::new();
    let np = meta.packages.len();
    let mut p: usize = 0;
    while p < np
        invariant
            np == meta.packages@.len(),
            0 <= p <= np,
            dag.wf(),
            dag@ == build_upto(*meta, p as int),
            forall|p2: int, fi: int, si: int|
                0 <= p2 < p && 0 <= fi < meta.packages@[p2].features@.len() && 0 <= si
                    < meta.packages@[p2].features@[fi].1@.len() ==> #[trigger] impl_edge(
                    *meta,
                    p2,
                    fi,
                    si,
                ) is Edge,
        decreases np - p,
    {
        let ghost g_pkg = dag@;
        // Edges from the package's dependency declarations.
        let nd = meta.packages[p].dependencies.len();
        let mut d: usize = 0;
        while d < nd
            invariant
                np == meta.packages@.len(),
                0 <= p < np,
                nd == meta.packages@[p as int].dependencies@.len(),
                0 <= d <= nd,
                dag.wf(),
                dag@ == deps_apply(*meta, g_pkg, p as int, d as int),
                g_pkg == build_upto(*meta, p as int),
            decreases nd - d,
        {
            let ghost g_dep = dag@;
            let tgt_id = dep_target_string(meta, p, d);
            let src = CrateAndFeature(meta.packages[p].id.clone(), default_string());
            let ghost g1_expected = if meta.packages@[p as int].dependencies@[d as int].uses_default_features {
                spec_add_edge(
                    g_dep,
                    (meta.packages@[p as int].id@, default_name()),
                    (dep_target_id(*meta, p as int, d as int), default_name()),
                )
            } else {
                g_dep
            };
            if meta.packages[p].dependencies[d].uses_default_features {
                let tgt = CrateAndFeature(tgt_id.clone(), default_string());
                dag.add_edge(&src, &tgt);
            }
            let nf = meta.packages[p].dependencies[d].features.len();
            let mut f: usize = 0;
            while f < nf
                invariant
                    np == meta.packages@.len(),
                    0 <= p < np,
                    nd == meta.packages@[p as int].dependencies@.len(),
                    0 <= d < nd,
                    nf == meta.packages@[p as int].dependencies@[d as int].features@.len(),
                    0 <= f <= nf,
                    dag.wf(),
                    dag@ == req_feats_apply(*meta, g1_expected, p as int, d as int, f as int),
                    tgt_id@ == dep_target_id(*meta, p as int, d as int),
                    src@ == (meta.packages@[p as int].id@, default_name()),
                decreases nf - f,
            {
                let feat = meta.packages[p].dependencies[d].features[f].clone();
                let tgt = CrateAndFeature(tgt_id.clone(), feat);
                dag.add_edge(&src, &tgt);
                f += 1;
            }
            d += 1;
        }
        // Edges from the package's feature map.
        let ghost g_feats = dag@;
        let nfe = meta.packages[p].features.len();
        let mut fi: usize = 0;
        while fi < nfe
            invariant
                np == meta.packages@.len(),
                0 <= p < np,
                nfe == meta.packages@[p as int].features@.len(),
                0 <= fi <= nfe,
                dag.wf(),
                dag@ == feats_apply(*meta, g_feats, p as int, fi as int),
                g_feats == deps_apply(
                    *meta,
                    g_pkg,
                    p as int,
                    meta.packages@[p as int].dependencies@.len() as int,
                ),
                g_pkg == build_upto(*meta, p as int),
                forall|p2: int, fi2: int, si: int|
                    0 <= p2 < p && 0 <= fi2 < meta.packages@[p2].features@.len() && 0 <= si
                        < meta.packages@[p2].features@[fi2].1@.len() ==> #[trigger] impl_edge(
                        *meta,
                        p2,
                        fi2,
                        si,
                    ) is Edge,
                forall|fi2: int, si: int|
                    0 <= fi2 < fi && 0 <= si < meta.packages@[p as int].features@[fi2].1@.len()
                        ==> #[trigger] impl_edge(*meta, p as int, fi2, si) is Edge,
            decreases nfe - fi,
        {
            let ghost g_fi = dag@;
            let ns = meta.packages[p].features[fi].1.len();
            let mut si: usize = 0;
            while si < ns
                invariant
                    np == meta.packages@.len(),
                    0 <= p < np,
                    nfe == meta.packages@[p as int].features@.len(),
                    0 <= fi < nfe,
                    ns == meta.packages@[p as int].features@[fi as int].1@.len(),
                    0 <= si <= ns,
                    dag.wf(),
                    dag@ == specs_apply(*meta, g_fi, p as int, fi as int, si as int),
                    g_fi == feats_apply(*meta, g_feats, p as int, fi as int),
                    g_feats == deps_apply(
                        *meta,
                        g_pkg,
                        p as int,
                        meta.packages@[p as int].dependencies@.len() as int,
                    ),
                    g_pkg == build_upto(*meta, p as int),
                    forall|p2: int, fi2: int, si2: int|
                        0 <= p2 < p && 0 <= fi2 < meta.packages@[p2].features@.len() && 0 <= si2
                            < meta.packages@[p2].features@[fi2].1@.len() ==> #[trigger] impl_edge(
                            *meta,
                            p2,
                            fi2,
                            si2,
                        ) is Edge,
                    forall|fi2: int, si2: int|
                        0 <= fi2 < fi && 0 <= si2 < meta.packages@[p as int].features@[fi2].1@.len()
                            ==> #[trigger] impl_edge(*meta, p as int, fi2, si2) is Edge,
                    forall|si2: int|
                        0 <= si2 < si ==> #[trigger] impl_edge(*meta, p as int, fi as int, si2)
                            is Edge,
                decreases ns - si,
            {
                let src = CrateAndFeature(
                    meta.packages[p].id.clone(),
                    meta.packages[p].features[fi].0.clone(),
                );
                let entry = &meta.packages[p].features[fi].1[si];
                match parse_implication_spec(entry) {
                    None => {
                        proof {
                            assert(impl_edge(*meta, p as int, fi as int, si as int) is BadForm);
                        }
                        return Err(MetadataError::MalformedImplication(entry.clone()));
                    },
                    Some(ImplicationSpec::OwnFeature { feature }) => {
                        if !has_feature(&meta.packages[p].features, &feature) {
                            proof {
                                assert(impl_edge(*meta, p as int, fi as int, si as int)
                                    is BadOwnFeature);
                            }
                            return Err(MetadataError::UnknownOwnFeature(entry.clone()));
                        }
                        let tgt = CrateAndFeature(meta.packages[p].id.clone(), feature);
                        dag.add_edge(&src, &tgt);
                    },
                    Some(ImplicationSpec::DepDefault { name }) => {
                        match find_dep(&meta.packages[p].dependencies, &name) {
                            None => {
                                proof {
                                    assert(impl_edge(*meta, p as int, fi as int, si as int)
                                        is BadDependency);
                                }
                                return Err(MetadataError::UnknownDependency(entry.clone()));
                            },
                            Some(d2) => {
                                let tgt = CrateAndFeature(
                                    dep_target_string(meta, p, d2),
                                    default_string(),
                                );
                                dag.add_edge(&src, &tgt);
                            },
                        }
                    },
                    Some(ImplicationSpec::DepFeature { name, feature }) => {
                        match find_dep(&meta.packages[p].dependencies, &name) {
                            None => {
                                proof {
                                    assert(impl_edge(*meta, p as int, fi as int, si as int)
                                        is BadDependency);
                                }
                                return Err(MetadataError::UnknownDependency(entry.clone()));
                            },
                            Some(d2) => {
                                let tgt = CrateAndFeature(dep_target_string(meta, p, d2), feature);
                                dag.add_edge(&src, &tgt);
                            },
                        }
                    },
                }
                si += 1;
            }
            fi += 1;
        }
        p += 1;
    }
    Ok(dag)
}


/// Whether vertex `v` is keyed by the id of a package of the snapshot. A
/// placeholder vertex for an unresolvable dependency is keyed by the
/// dependency's declared name instead and is not, as long as that name is
/// no package's id.
pub open spec fn is_snapshot_vertex(meta: Metadata, v: (Seq<char>, Seq<char>)) -> bool {
    exists|p: int| 0 <= p < meta.packages@.len() && (#[trigger] meta.packages@[p]).id@ == v.0
}

/// The edge-source shape the build maintains: vertex and adjacency counts
/// agree, and every vertex with an outgoing edge is keyed by a package id.
pub open spec fn sources_are_packages(meta: Metadata, g: DagView) -> bool {
    &&& g.verts.len() == g.adj.len()
    &&& (forall|i: int|
        0 <= i < g.adj.len() && (#[trigger] g.adj[i]).len() > 0 ==> is_snapshot_vertex(
            meta,
            g.verts[i],
        ))
}

/// Inserting an edge whose source is keyed by a package id keeps the
/// edge-source shape.
proof fn lemma_add_edge_source(
    meta: Metadata,
    g: DagView,
    from: (Seq<char>, Seq<char>),
    to: (Seq<char>, Seq<char>),
)
    requires
        sources_are_packages(meta, g),
        is_snapshot_vertex(meta, from),
    ensures
        sources_are_packages(meta, spec_add_edge(g, from, to)),
{
    let (ga, i) = spec_intern(g, from);
    assert(0 <= i < ga.verts.len() && ga.verts[i] == from && ga.verts.len() == ga.adj.len()) by {
        if find_vert(g.verts, from) is Some {
            lemma_find_vert_from_some(g.verts, from, 0, find_vert(g.verts, from).unwrap());
        }
    }
    assert(sources_are_packages(meta, ga)) by {
        if find_vert(g.verts, from) is None {
            assert(forall|m: int| 0 <= m < g.adj.len() ==> ga.adj[m] == #[trigger] g.adj[m]);
            assert(ga.adj[ga.adj.len() - 1].len() == 0);
        }
    }
    let (gb, j) = spec_intern(ga, to);
    assert(sources_are_packages(meta, gb) && gb.verts[i] == from && i < gb.adj.len()) by {
        if find_vert(ga.verts, to) is None {
            assert(forall|m: int| 0 <= m < ga.adj.len() ==> gb.adj[m] == #[trigger] ga.adj[m]);
            assert(gb.adj[gb.adj.len() - 1].len() == 0);
        }
    }
    let g2 = spec_add_edge(g, from, to);
    if !gb.adj[i].contains(j) {
        assert(g2.adj == gb.adj.update(i, gb.adj[i].push(j)));
        assert forall|m: int|
            0 <= m < g2.adj.len() && (#[trigger] g2.adj[m]).len() > 0 implies is_snapshot_vertex(
            meta,
            g2.verts[m],
        ) by {
            if m != i {
                assert(g2.adj[m] == gb.adj[m]);
            }
        }
    }
}

/// The requested-feature edges of one dependency keep the edge-source
/// shape: their source is the package's own `default` vertex.
proof fn lemma_req_feats_sources(meta: Metadata, g: DagView, p: int, d: int, f: int)
    requires
        sources_are_packages(meta, g),
        0 <= p < meta.packages@.len(),
    ensures
        sources_are_packages(meta, req_feats_apply(meta, g, p, d, f)),
    decreases f,
{
    if f > 0 {
        lemma_req_feats_sources(meta, g, p, d, f - 1);
        assert(is_snapshot_vertex(meta, (meta.packages@[p].id@, default_name())));
        lemma_add_edge_source(
            meta,
            req_feats_apply(meta, g, p, d, f - 1),
            (meta.packages@[p].id@, default_name()),
            (dep_target_id(meta, p, d), meta.packages@[p].dependencies@[d].features@[f - 1]@),
        );
    }
}

/// The dependency-declaration edges keep the edge-source shape.
proof fn lemma_deps_sources(meta: Metadata, g: DagView, p: int, d: int)
    requires
        sources_are_packages(meta, g),
        0 <= p < meta.packages@.len(),
    ensures
        sources_are_packages(meta, deps_apply(meta, g, p, d)),
    decreases d,
{
    if d > 0 {
        lemma_deps_sources(meta, g, p, d - 1);
        let gprev = deps_apply(meta, g, p, d - 1);
        let dep = meta.packages@[p].dependencies@[d - 1];
        let g1 = if dep.uses_default_features {
            spec_add_edge(
                gprev,
                (meta.packages@[p].id@, default_name()),
                (dep_target_id(meta, p, d - 1), default_name()),
            )
        } else {
            gprev
        };
        if dep.uses_default_features {
            assert(is_snapshot_vertex(meta, (meta.packages@[p].id@, default_name())));
            lemma_add_edge_source(
                meta,
                gprev,
                (meta.packages@[p].id@, default_name()),
                (dep_target_id(meta, p, d - 1), default_name()),
            );
        }
        lemma_req_feats_sources(meta, g1, p, d - 1, dep.features@.len() as int);
    }
}

/// The feature-map edges of one feature keep the edge-source shape: every
/// edge's source is a `(package id, feature)` vertex of that package.
proof fn lemma_specs_sources(meta: Metadata, g: DagView, p: int, fi: int, si: int)
    requires
        sources_are_packages(meta, g),
        0 <= p < meta.packages@.len(),
    ensures
        sources_are_packages(meta, specs_apply(meta, g, p, fi, si)),
    decreases si,
{
    if si > 0 {
        lemma_specs_sources(meta, g, p, fi, si - 1);
        match impl_edge(meta, p, fi, si - 1) {
            EdgeOutcome::Edge { from, to } => {
                assert(from.0 == meta.packages@[p].id@);
                assert(is_snapshot_vertex(meta, from));
                lemma_add_edge_source(meta, specs_apply(meta, g, p, fi, si - 1), from, to);
            },
            _ => {},
        }
    }
}

/// All feature-map edges of one package keep the edge-source shape.
proof fn lemma_feats_sources(meta: Metadata, g: DagView, p: int, fi: int)
    requires
        sources_are_packages(meta, g),
        0 <= p < meta.packages@.len(),
    ensures
        sources_are_packages(meta, feats_apply(meta, g, p, fi)),
    decreases fi,
{
    if fi > 0 {
        lemma_feats_sources(meta, g, p, fi - 1);
        lemma_specs_sources(
            meta,
            feats_apply(meta, g, p, fi - 1),
            p,
            fi - 1,
            meta.packages@[p].features@[fi - 1].1@.len() as int,
        );
    }
}

/// The whole build keeps the edge-source shape.
proof fn lemma_build_sources(meta: Metadata, pn: int)
    requires
        0 <= pn <= meta.packages@.len(),
    ensures
        sources_are_packages(meta, build_upto(meta, pn)),
    decreases pn,
{
    if pn > 0 {
        lemma_build_sources(meta, pn - 1);
        lemma_deps_sources(
            meta,
            build_upto(meta, pn - 1),
            pn - 1,
            meta.packages@[pn - 1].dependencies@.len() as int,
        );
        lemma_feats_sources(
            meta,
            deps_apply(
                meta,
                build_upto(meta, pn - 1),
                pn - 1,
                meta.packages@[pn - 1].dependencies@.len() as int,
            ),
            pn - 1,
            meta.packages@[pn - 1].features@.len() as int,
        );
    }
}

/// Law: placeholder vertices are dead ends. Every edge of the implication
/// graph leaves a vertex keyed by a package id of the snapshot, so along
/// any path only the final vertex can be a placeholder (a vertex keyed by
/// an unresolvable dependency's declared name): no path continues into the
/// feature implications of an unresolved dependency.
pub proof fn lemma_placeholders_are_dead_ends(meta: Metadata)
    ensures
        forall|q: Seq<(Seq<char>, Seq<char>)>, k: int|
            #![trigger is_path(spec_build_graph(meta), q), q[k]]
            is_path(spec_build_graph(meta), q) && 0 <= k < q.len() - 1 ==> is_snapshot_vertex(
                meta,
                q[k],
            ),
{
    lemma_build_sources(meta, meta.packages@.len() as int);
    let g = spec_build_graph(meta);
    assert forall|q: Seq<(Seq<char>, Seq<char>)>, k: int|
        is_path(g, q) && 0 <= k < q.len() - 1 implies is_snapshot_vertex(meta, q[k]) by {
        assert(has_edge(g, q[k], q[k + 1]));
        let (i, c) = choose|i: int, c: int|
            0 <= i < g.verts.len() && g.verts[i] == q[k] && 0 <= c < g.adj[i].len() && 0
                <= g.adj[i][c] < g.verts.len() && g.verts[g.adj[i][c]] == q[k + 1];
        assert(g.adj[i].len() > 0);
    }
}

} // verus!
