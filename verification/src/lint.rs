//! The three lint policies: Propagate-Feature, Never-Enables and
//! Never-Implies. Each consumes a metadata snapshot and returns a report;
//! printing, exit codes and manifest writes belong to the caller.

use vstd::prelude::*;

use crate::builder::{build_feature_dag, no_build_error, spec_build_graph};
use crate::cmd::TreeArgs;
use crate::graph::{is_path, spec_lhs_nodes, CrateAndFeature};
use crate::model::{
    contains_string, find_package, get_feature, lemma_contains_string_push,
    spec_contains_string, spec_get_feature, spec_has_feature, has_feature, Metadata,
};
use crate::resolve::{resolve_dep, spec_resolve};
use crate::text::{make_slash_join, slash_join};
use crate::MetadataError;

verus! {

/// One lint finding: a package together with the dependencies it offends
/// with. Ids identify packages exactly; names are for display.
pub struct Finding {
    /// The id of the flagged package.
    pub pkg_id: String,
    /// The flagged package's name.
    pub pkg_name: String,
    /// The flagged package's manifest path, for the auto-fixer.
    pub manifest_path: String,
    /// The ids of the dependencies involved, without duplicates.
    pub dep_ids: Vec<String>,
    /// The names of those dependencies, index-aligned with `dep_ids`.
    pub dep_names: Vec<String>,
}

/// Whether package `p`'s declaration of `pre` directly contains the bare
/// token `dis`, activating `dis` on the package itself.
pub open spec fn enables_directly(meta: Metadata, p: int, pre: Seq<char>, dis: Seq<char>) -> bool {
    match spec_get_feature(meta.packages@[p].features@, pre) {
        Some(list) => spec_contains_string(list, dis),
        None => false,
    }
}

/// Whether package `p`'s declaration of `pre` contains the forwarded form
/// `name/dis` for some dependency that resolves to package `j`.
pub open spec fn enables_via_dep(
    meta: Metadata,
    p: int,
    j: int,
    pre: Seq<char>,
    dis: Seq<char>,
) -> bool {
    match spec_get_feature(meta.packages@[p].features@, pre) {
        Some(list) => 0 <= j < meta.packages@.len() && exists|d: int|
            0 <= d < meta.packages@[p].dependencies@.len() && spec_resolve(
                meta,
                meta.packages@[p],
                #[trigger] meta.packages@[p].dependencies@[d],
            ) == Some(j) && spec_contains_string(list, slash_join(meta.packages@[j].name@, dis)),
        None => false,
    }
}

/// Whether package `p` offends the Never-Enables rule for `pre`/`dis`.
pub open spec fn is_never_enables_offender(
    meta: Metadata,
    p: int,
    pre: Seq<char>,
    dis: Seq<char>,
) -> bool {
    enables_directly(meta, p, pre, dis) || exists|j: int| enables_via_dep(meta, p, j, pre, dis)
}

/// What justifies one dependency entry `(id, name)` of a Never-Enables
/// finding for package `p`: the package itself, for a bare-token offense, or
/// a resolved dependency the forbidden forward points at.
pub open spec fn entry_element_ok(
    meta: Metadata,
    p: int,
    id: String,
    name: String,
    pre: Seq<char>,
    dis: Seq<char>,
) -> bool {
    ||| (id@ == meta.packages@[p].id@ && name@ == meta.packages@[p].name@ && enables_directly(
        meta,
        p,
        pre,
        dis,
    ))
    ||| exists|j: int|
        0 <= j < meta.packages@.len() && meta.packages@[j].id@ == id@ && meta.packages@[j].name@
            == name@ && enables_via_dep(meta, p, j, pre, dis)
}

/// What one Never-Enables finding must hold for package `p`: its identity,
/// and a duplicate-free dependency list that is exactly the offending set.
pub open spec fn never_enables_entry_ok(
    meta: Metadata,
    p: int,
    o: Finding,
    pre: Seq<char>,
    dis: Seq<char>,
) -> bool {
    &&& o.pkg_id@ == meta.packages@[p].id@
    &&& o.pkg_name@ == meta.packages@[p].name@
    &&& o.manifest_path@ == meta.packages@[p].manifest_path@
    &&& o.dep_ids@.len() == o.dep_names@.len()
    &&& o.dep_ids@.len() >= 1
    &&& (forall|k: int|
        0 <= k < o.dep_ids@.len() ==> entry_element_ok(
            meta,
            p,
            #[trigger] o.dep_ids@[k],
            o.dep_names@[k],
            pre,
            dis,
        ))
    &&& (enables_directly(meta, p, pre, dis) ==> spec_contains_string(
        o.dep_ids@,
        meta.packages@[p].id@,
    ))
    &&& (forall|j: int|
        enables_via_dep(meta, p, j, pre, dis) ==> spec_contains_string(
            o.dep_ids@,
            meta.packages@[j].id@,
        ))
    &&& (forall|k1: int, k2: int|
        0 <= k1 < k2 < o.dep_ids@.len() ==> o.dep_ids@[k1]@ != o.dep_ids@[k2]@)
}

/// Whether some finding of `rs` flags the package whose id reads `x`.
pub open spec fn findings_contain_id(rs: Seq<Finding>, x: Seq<char>) -> bool {
    exists|i: int| 0 <= i < rs.len() && rs[i].pkg_id@ == x
}

/// Appending keeps every finding a report already holds, and makes the new
/// one found.
pub proof fn lemma_findings_push(rs: Seq<Finding>, e: Finding, x: Seq<char>)
    ensures
        findings_contain_id(rs, x) ==> findings_contain_id(rs.push(e), x),
        findings_contain_id(rs.push(e), e.pkg_id@),
{
    if findings_contain_id(rs, x) {
        let i = choose|i: int| 0 <= i < rs.len() && rs[i].pkg_id@ == x;
        assert(rs.push(e)[i].pkg_id@ == x);
    }
    assert(rs.push(e)[rs.len() as int].pkg_id@ == e.pkg_id@);
}

/// Whether the package whose id reads `x` stands strictly before the one
/// whose id reads `y` in snapshot order.
pub open spec fn precedes_in_snapshot(meta: Metadata, x: Seq<char>, y: Seq<char>) -> bool {
    exists|p1: int, p2: int|
        #![trigger meta.packages@[p1], meta.packages@[p2]]
        0 <= p1 < p2 < meta.packages@.len() && meta.packages@[p1].id@ == x
            && meta.packages@[p2].id@ == y
}

/// Whether some package of the snapshot justifies the finding `o`.
pub open spec fn some_pkg_entry_ok(meta: Metadata, o: Finding, pre: Seq<char>, dis: Seq<char>) -> bool {
    exists|p: int|
        0 <= p < meta.packages@.len() && never_enables_entry_ok(meta, p, o, pre, dis)
}

/// What [`NeverEnablesCmd::run`] promises of its result.
pub open spec fn never_enables_post(
    cmd: NeverEnablesCmd,
    meta: Metadata,
    r: Seq<Finding>,
) -> bool {
    &&& (forall|i: int|
        0 <= i < r.len() ==> some_pkg_entry_ok(
            meta,
            #[trigger] r[i],
            cmd.precondition@,
            cmd.stays_disabled@,
        ))
    &&& (forall|p: int|
        0 <= p < meta.packages@.len() && is_never_enables_offender(
            meta,
            p,
            cmd.precondition@,
            cmd.stays_disabled@,
        ) ==> findings_contain_id(r, (#[trigger] meta.packages@[p]).id@))
    &&& (forall|i1: int, i2: int|
        #![trigger r[i1], r[i2]]
        0 <= i1 < i2 < r.len() ==> precedes_in_snapshot(meta, r[i1].pkg_id@, r[i2].pkg_id@))
}

/// Checks that no package's declaration of `precondition` directly enables
/// `stays_disabled`, neither as a bare token nor forwarded to a resolved
/// dependency. A one-hop check: transitive implication is Never-Implies'
/// business.
pub struct NeverEnablesCmd {
    /// Where and how the snapshot was loaded.
    pub cargo_args: TreeArgs,
    /// The left side of the feature implication.
    pub precondition: String,
    /// The right side: if `precondition` is enabled, this stays disabled.
    pub stays_disabled: String,
}

impl NeverEnablesCmd {
    /// Scans every package and reports each offender with the dependencies
    /// through which the forbidden activation occurs.
    pub fn run(&self, meta: &Metadata) -> (r: Vec<Finding>)
        requires
            meta.wf(),
        ensures
            never_enables_post(*self, *meta, r@),
    {
        let ghost pre = self.precondition@;
        let ghost dis = self.stays_disabled@;
        let mut r: Vec<Finding> = Vec::new();
        let ghost mut pks: Seq<int> = Seq::empty();
        let n = meta.packages.len();
        let mut p: usize = 0;
        while p < n
            invariant
                meta.wf(),
                n == meta.packages@.len(),
                0 <= p <= n,
                pre == self.precondition@,
                dis == self.stays_disabled@,
                pks.len() == r@.len(),
                forall|i: int|
                    0 <= i < r@.len() ==> 0 <= #[trigger] pks[i] < n && never_enables_entry_ok(
                        *meta,
                        pks[i],
                        r@[i],
                        pre,
                        dis,
                    ),
                forall|i: int| 0 <= i < pks.len() ==> #[trigger] pks[i] < p,
                forall|i1: int, i2: int|
                    #![trigger pks[i1], pks[i2]]
                    0 <= i1 < i2 < pks.len() ==> pks[i1] < pks[i2],
                forall|p2: int|
                    0 <= p2 < p && is_never_enables_offender(*meta, p2, pre, dis)
                        ==> findings_contain_id(r@, (#[trigger] meta.packages@[p2]).id@),
            decreases n - p,
        {
            let pkg = &meta.packages[p];
            let enabled = match get_feature(&pkg.features, &self.precondition) {
                None => {
                    proof {
                        assert(!is_never_enables_offender(*meta, p as int, pre, dis)) by {
                            if exists|j: int| enables_via_dep(*meta, p as int, j, pre, dis) {
                                let j = choose|j: int|
                                    enables_via_dep(*meta, p as int, j, pre, dis);
                            }
                        }
                    }
                    p += 1;
                    continue ;
                },
                Some(enabled) => enabled,
            };
            let mut dep_ids: Vec<String> = Vec::new();
            let mut dep_names: Vec<String> = Vec::new();
            if contains_string(enabled, &self.stays_disabled) {
                dep_ids.push(pkg.id.clone());
                dep_names.push(pkg.name.clone());
                proof {
                    assert(dep_ids@[0]@ == meta.packages@[p as int].id@);
                    assert(dep_names@[0]@ == meta.packages@[p as int].name@);
                    assert(entry_element_ok(
                        *meta,
                        p as int,
                        dep_ids@[0],
                        dep_names@[0],
                        pre,
                        dis,
                    ));
                }
            }
            let ghost direct = enables_directly(*meta, p as int, pre, dis);
            let nd = pkg.dependencies.len();
            let mut d: usize = 0;
            while d < nd
                invariant
                    meta.wf(),
                    n == meta.packages@.len(),
                    0 <= p < n,
                    *pkg == meta.packages@[p as int],
                    nd == pkg.dependencies@.len(),
                    0 <= d <= nd,
                    pre == self.precondition@,
                    dis == self.stays_disabled@,
                    spec_get_feature(meta.packages@[p as int].features@, pre) == Some(enabled@),
                    direct == enables_directly(*meta, p as int, pre, dis),
                    dep_ids@.len() == dep_names@.len(),
                    direct ==> spec_contains_string(dep_ids@, meta.packages@[p as int].id@),
                    forall|k: int|
                        0 <= k < dep_ids@.len() ==> entry_element_ok(
                            *meta,
                            p as int,
                            #[trigger] dep_ids@[k],
                            dep_names@[k],
                            pre,
                            dis,
                        ),
                    forall|j: int, d2: int|
                        #![trigger meta.packages@[p as int].dependencies@[d2], meta.packages@[j]]
                        0 <= j < n && 0 <= d2 < d && spec_resolve(
                            *meta,
                            meta.packages@[p as int],
                            meta.packages@[p as int].dependencies@[d2],
                        ) == Some(j) && spec_contains_string(
                            enabled@,
                            slash_join(meta.packages@[j].name@, dis),
                        ) ==> spec_contains_string(dep_ids@, meta.packages@[j].id@),
                    forall|k1: int, k2: int|
                        0 <= k1 < k2 < dep_ids@.len() ==> dep_ids@[k1]@ != dep_ids@[k2]@,
                decreases nd - d,
            {
                let ghost d0 = d as int;
                let ghost ids0 = dep_ids@;
                match resolve_dep(pkg, &pkg.dependencies[d], meta) {
                    None => {
                        proof {
                            assert forall|j: int, d2: int|
                                #![trigger meta.packages@[p as int].dependencies@[d2], meta.packages@[j]]
                                0 <= j < n && 0 <= d2 < d0 + 1 && spec_resolve(
                                    *meta,
                                    meta.packages@[p as int],
                                    meta.packages@[p as int].dependencies@[d2],
                                ) == Some(j) && spec_contains_string(
                                    enabled@,
                                    slash_join(meta.packages@[j].name@, dis),
                                ) implies spec_contains_string(
                                dep_ids@,
                                meta.packages@[j].id@,
                            ) by {
                                assert(d2 != d0);
                            }
                        }
                    },
                    Some(j) => {
                        let pat = make_slash_join(
                            meta.packages[j].name.as_str(),
                            self.stays_disabled.as_str(),
                        );
                        let hit = contains_string(enabled, &pat);
                        if hit {
                            if !contains_string(&dep_ids, &meta.packages[j].id) {
                                dep_ids.push(meta.packages[j].id.clone());
                                dep_names.push(meta.packages[j].name.clone());
                                proof {
                                    let kl = dep_ids@.len() - 1;
                                    assert(dep_ids@[kl]@ == meta.packages@[j as int].id@);
                                    assert(dep_names@[kl]@ == meta.packages@[j as int].name@);
                                    assert(enables_via_dep(*meta, p as int, j as int, pre, dis));
                                    assert(entry_element_ok(
                                        *meta,
                                        p as int,
                                        dep_ids@[kl],
                                        dep_names@[kl],
                                        pre,
                                        dis,
                                    ));
                                    assert(forall|k: int|
                                        0 <= k < ids0.len() ==> dep_ids@[k] == #[trigger] ids0[k]
                                            && dep_names@[k] == dep_names@[k]);
                                    if direct {
                                        lemma_contains_string_push(
                                            ids0,
                                            meta.packages@[j as int].id,
                                            meta.packages@[p as int].id@,
                                        );
                                        assert(dep_ids@ == ids0.push(
                                            meta.packages@[j as int].id,
                                        ));
                                    }
                                    assert forall|k1: int, k2: int|
                                        0 <= k1 < k2 < dep_ids@.len() implies dep_ids@[k1]@
                                        != dep_ids@[k2]@ by {
                                        if k2 == kl {
                                            assert(!spec_contains_string(
                                                ids0,
                                                meta.packages@[j as int].id@,
                                            ));
                                            assert(ids0[k1] == dep_ids@[k1]);
                                        } else {
                                            assert(ids0[k1] == dep_ids@[k1]);
                                            assert(ids0[k2] == dep_ids@[k2]);
                                        }
                                    }
                                }
                            }
                        }
                        proof {
                            assert forall|j2: int, d2: int|
                                #![trigger meta.packages@[p as int].dependencies@[d2], meta.packages@[j2]]
                                0 <= j2 < n && 0 <= d2 < d0 + 1 && spec_resolve(
                                    *meta,
                                    meta.packages@[p as int],
                                    meta.packages@[p as int].dependencies@[d2],
                                ) == Some(j2) && spec_contains_string(
                                    enabled@,
                                    slash_join(meta.packages@[j2].name@, dis),
                                ) implies spec_contains_string(
                                dep_ids@,
                                meta.packages@[j2].id@,
                            ) by {
                                if dep_ids@ != ids0 {
                                    assert forall|x: Seq<char>|
                                        spec_contains_string(ids0, x) implies spec_contains_string(
                                        dep_ids@,
                                        x,
                                    ) by {
                                        let k = choose|k: int|
                                            0 <= k < ids0.len() && #[trigger] ids0[k]@ == x;
                                        assert(dep_ids@[k]@ == x);
                                    }
                                }
                                if d2 == d0 {
                                    assert(j2 == j as int);
                                    assert(pat@ == slash_join(meta.packages@[j2].name@, dis));
                                    assert(hit);
                                    if spec_contains_string(ids0, meta.packages@[j as int].id@) {
                                    } else {
                                        let kl = dep_ids@.len() - 1;
                                        assert(dep_ids@[kl]@ == meta.packages@[j2].id@);
                                    }
                                }
                            }
                        }
                    },
                }
                d += 1;
            }
            if dep_ids.len() > 0 {
                let ghost ids_f = dep_ids@;
                let ghost names_f = dep_names@;
                let entry = Finding {
                    pkg_id: pkg.id.clone(),
                    pkg_name: pkg.name.clone(),
                    manifest_path: pkg.manifest_path.clone(),
                    dep_ids,
                    dep_names,
                };
                proof {
                    assert(entry.dep_ids@ == ids_f);
                    assert(entry.dep_names@ == names_f);
                    assert forall|k: int|
                        0 <= k < entry.dep_ids@.len() implies entry_element_ok(
                        *meta,
                        p as int,
                        #[trigger] entry.dep_ids@[k],
                        entry.dep_names@[k],
                        pre,
                        dis,
                    ) by {
                        assert(entry.dep_ids@[k] == ids_f[k]);
                        assert(entry.dep_names@[k] == names_f[k]);
                    }
                    assert(never_enables_entry_ok(*meta, p as int, entry, pre, dis));
                }
                let ghost r0 = r@;
                let ghost entry_g = entry;
                r.push(entry);
                proof {
                    let ghost pks0 = pks;
                    pks = pks.push(p as int);
                    lemma_findings_push(r0, entry_g, pre);
                    assert forall|i: int|
                        0 <= i < r@.len() implies 0 <= #[trigger] pks[i] < n
                            && never_enables_entry_ok(*meta, pks[i], r@[i], pre, dis) by {
                        if i < r0.len() {
                            assert(r@[i] == r0[i]);
                        } else {
                            assert(r@[i] == entry_g && pks[i] == p as int);
                        }
                    }
                    assert forall|i1: int, i2: int|
                        #![trigger pks[i1], pks[i2]]
                        0 <= i1 < i2 < pks.len() implies pks[i1] < pks[i2] by {
                        if i2 == pks.len() - 1 {
                            assert(pks0[i1] < p as int);
                        } else {
                            assert(pks[i1] == pks0[i1] && pks[i2] == pks0[i2]);
                        }
                    }
                    assert forall|p2: int|
                        0 <= p2 < p + 1 && is_never_enables_offender(*meta, p2, pre, dis)
                            implies findings_contain_id(
                        r@,
                        (#[trigger] meta.packages@[p2]).id@,
                    ) by {
                        lemma_findings_push(r0, entry_g, meta.packages@[p2].id@);
                        if p2 == p as int {
                            assert(r@[r@.len() - 1].pkg_id@ == meta.packages@[p2].id@);
                        }
                    }
                }
            } else {
                proof {
                    assert(!is_never_enables_offender(*meta, p as int, pre, dis)) by {
                        if exists|j: int| enables_via_dep(*meta, p as int, j, pre, dis) {
                            let j = choose|j: int| enables_via_dep(*meta, p as int, j, pre, dis);
                            let d2 = choose|d2: int|
                                0 <= d2 < meta.packages@[p as int].dependencies@.len()
                                    && spec_resolve(
                                    *meta,
                                    meta.packages@[p as int],
                                    #[trigger] meta.packages@[p as int].dependencies@[d2],
                                ) == Some(j) && spec_contains_string(
                                    enabled@,
                                    slash_join(meta.packages@[j].name@, dis),
                                );
                            assert(spec_contains_string(dep_ids@, meta.packages@[j].id@));
                            assert(false);
                        }
                    }
                }
            }
            p += 1;
        }
        proof {
            assert forall|i: int| 0 <= i < r@.len() implies some_pkg_entry_ok(
                *meta,
                #[trigger] r@[i],
                self.precondition@,
                self.stays_disabled@,
            ) by {
                assert(0 <= pks[i] < meta.packages@.len() && never_enables_entry_ok(
                    *meta,
                    pks[i],
                    r@[i],
                    self.precondition@,
                    self.stays_disabled@,
                ));
            }
            assert forall|i1: int, i2: int|
                #![trigger r@[i1], r@[i2]]
                0 <= i1 < i2 < r@.len() implies precedes_in_snapshot(
                *meta,
                r@[i1].pkg_id@,
                r@[i2].pkg_id@,
            ) by {
                assert(pks[i1] < pks[i2]);
                assert(meta.packages@[pks[i1]].id@ == r@[i1].pkg_id@);
                assert(meta.packages@[pks[i2]].id@ == r@[i2].pkg_id@);
            }
        }
        r
    }
}


/// Whether the package-name filter of the Propagate-Feature check admits
/// package `p`: an empty filter admits every package.
pub open spec fn in_filter(cmd: PropagateFeatureCmd, meta: Metadata, p: int) -> bool {
    cmd.packages@.len() == 0 || spec_contains_string(cmd.packages@, meta.packages@[p].name@)
}

/// Whether some dependency of package `p` resolves to package `j`, which
/// declares `feat`, while `p` does not declare `feat` at all.
pub open spec fn feature_missing_pair(meta: Metadata, p: int, j: int, feat: Seq<char>) -> bool {
    &&& 0 <= j < meta.packages@.len()
    &&& !spec_has_feature(meta.packages@[p].features@, feat)
    &&& exists|d: int|
        0 <= d < meta.packages@[p].dependencies@.len() && spec_resolve(
            meta,
            meta.packages@[p],
            #[trigger] meta.packages@[p].dependencies@[d],
        ) == Some(j) && spec_has_feature(meta.packages@[j].features@, feat)
}

/// Whether some dependency of package `p` resolves to package `j`, which
/// declares `feat`, and `p` declares `feat` but does not forward it as
/// `name/feat` to that dependency.
pub open spec fn propagate_missing_pair(meta: Metadata, p: int, j: int, feat: Seq<char>) -> bool {
    &&& 0 <= j < meta.packages@.len()
    &&& match spec_get_feature(meta.packages@[p].features@, feat) {
        Some(list) => !spec_contains_string(list, slash_join(meta.packages@[j].name@, feat)),
        None => false,
    }
    &&& exists|d: int|
        0 <= d < meta.packages@[p].dependencies@.len() && spec_resolve(
            meta,
            meta.packages@[p],
            #[trigger] meta.packages@[p].dependencies@[d],
        ) == Some(j) && spec_has_feature(meta.packages@[j].features@, feat)
}

/// Whether package `p` forwards `feat` properly to some dependency that has
/// it.
pub open spec fn forwards_ok_pair(meta: Metadata, p: int, j: int, feat: Seq<char>) -> bool {
    &&& 0 <= j < meta.packages@.len()
    &&& match spec_get_feature(meta.packages@[p].features@, feat) {
        Some(list) => spec_contains_string(list, slash_join(meta.packages@[j].name@, feat)),
        None => false,
    }
    &&& exists|d: int|
        0 <= d < meta.packages@[p].dependencies@.len() && spec_resolve(
            meta,
            meta.packages@[p],
            #[trigger] meta.packages@[p].dependencies@[d],
        ) == Some(j) && spec_has_feature(meta.packages@[j].features@, feat)
}

/// Whether some dependency of `p` does not resolve at all: such a dead end
/// counts as a use of the feature, as nothing can be said about it.
pub open spec fn has_unresolved_dep(meta: Metadata, p: int) -> bool {
    exists|d: int|
        0 <= d < meta.packages@[p].dependencies@.len() && spec_resolve(
            meta,
            meta.packages@[p],
            #[trigger] meta.packages@[p].dependencies@[d],
        ) is None
}

/// Whether `feat` counts as used by package `p`.
pub open spec fn feature_used(meta: Metadata, p: int, feat: Seq<char>) -> bool {
    has_unresolved_dep(meta, p) || exists|j: int| forwards_ok_pair(meta, p, j, feat)
}

/// The informational flag: `p` declares `feat`, but no dependency justifies
/// keeping it.
pub open spec fn feature_maybe_unused(meta: Metadata, p: int, feat: Seq<char>) -> bool {
    !feature_used(meta, p, feat) && spec_has_feature(meta.packages@[p].features@, feat)
}

/// What justifies one dependency entry of a `feature_missing` finding.
pub open spec fn fm_element_ok(
    meta: Metadata,
    p: int,
    id: String,
    name: String,
    feat: Seq<char>,
) -> bool {
    exists|j: int|
        0 <= j < meta.packages@.len() && meta.packages@[j].id@ == id@ && meta.packages@[j].name@
            == name@ && feature_missing_pair(meta, p, j, feat)
}

/// What justifies one dependency entry of a `propagate_missing` finding.
pub open spec fn pm_element_ok(
    meta: Metadata,
    p: int,
    id: String,
    name: String,
    feat: Seq<char>,
) -> bool {
    exists|j: int|
        0 <= j < meta.packages@.len() && meta.packages@[j].id@ == id@ && meta.packages@[j].name@
            == name@ && propagate_missing_pair(meta, p, j, feat)
}

/// What one `feature_missing` finding must hold for package `p`.
pub open spec fn fm_entry_ok(meta: Metadata, p: int, o: Finding, feat: Seq<char>) -> bool {
    &&& o.pkg_id@ == meta.packages@[p].id@
    &&& o.pkg_name@ == meta.packages@[p].name@
    &&& o.manifest_path@ == meta.packages@[p].manifest_path@
    &&& o.dep_ids@.len() == o.dep_names@.len()
    &&& o.dep_ids@.len() >= 1
    &&& (forall|k: int|
        0 <= k < o.dep_ids@.len() ==> fm_element_ok(
            meta,
            p,
            #[trigger] o.dep_ids@[k],
            o.dep_names@[k],
            feat,
        ))
    &&& (forall|j: int|
        feature_missing_pair(meta, p, j, feat) ==> spec_contains_string(
            o.dep_ids@,
            meta.packages@[j].id@,
        ))
    &&& (forall|k1: int, k2: int|
        0 <= k1 < k2 < o.dep_ids@.len() ==> o.dep_ids@[k1]@ != o.dep_ids@[k2]@)
}

/// What one `propagate_missing` finding must hold for package `p`.
pub open spec fn pm_entry_ok(meta: Metadata, p: int, o: Finding, feat: Seq<char>) -> bool {
    &&& o.pkg_id@ == meta.packages@[p].id@
    &&& o.pkg_name@ == meta.packages@[p].name@
    &&& o.manifest_path@ == meta.packages@[p].manifest_path@
    &&& o.dep_ids@.len() == o.dep_names@.len()
    &&& o.dep_ids@.len() >= 1
    &&& (forall|k: int|
        0 <= k < o.dep_ids@.len() ==> pm_element_ok(
            meta,
            p,
            #[trigger] o.dep_ids@[k],
            o.dep_names@[k],
            feat,
        ))
    &&& (forall|j: int|
        propagate_missing_pair(meta, p, j, feat) ==> spec_contains_string(
            o.dep_ids@,
            meta.packages@[j].id@,
        ))
    &&& (forall|k1: int, k2: int|
        0 <= k1 < k2 < o.dep_ids@.len() ==> o.dep_ids@[k1]@ != o.dep_ids@[k2]@)
}

/// Whether some package admitted by the filter justifies the finding as a
/// `feature_missing` entry.
pub open spec fn some_fm_ok(cmd: PropagateFeatureCmd, meta: Metadata, o: Finding) -> bool {
    exists|p: int|
        0 <= p < meta.packages@.len() && in_filter(cmd, meta, p) && fm_entry_ok(
            meta,
            p,
            o,
            cmd.feature@,
        )
}

/// Whether some package admitted by the filter justifies the finding as a
/// `propagate_missing` entry.
pub open spec fn some_pm_ok(cmd: PropagateFeatureCmd, meta: Metadata, o: Finding) -> bool {
    exists|p: int|
        0 <= p < meta.packages@.len() && in_filter(cmd, meta, p) && pm_entry_ok(
            meta,
            p,
            o,
            cmd.feature@,
        )
}

/// Whether some package admitted by the filter justifies the id as a
/// `feature_maybe_unused` entry.
pub open spec fn some_unused_ok(cmd: PropagateFeatureCmd, meta: Metadata, id: String) -> bool {
    exists|p: int|
        0 <= p < meta.packages@.len() && in_filter(cmd, meta, p) && meta.packages@[p].id@ == id@
            && feature_maybe_unused(meta, p, cmd.feature@)
}

/// Whether the fix options admit fixing the package named `name`.
pub open spec fn fix_allowed_pkg(cmd: PropagateFeatureCmd, name: Seq<char>) -> bool {
    match cmd.fix_package {
        Some(fp) => fp@ == name,
        None => true,
    }
}

/// Whether the fix options admit forwarding to the dependency named `name`.
pub open spec fn fix_allowed_dep(cmd: PropagateFeatureCmd, name: Seq<char>) -> bool {
    match cmd.fix_dependency {
        Some(fd) => fd@ == name,
        None => true,
    }
}

/// One planned manifest edit: append each of `values` to the declaration of
/// `feature` in the manifest at `manifest_path`.
pub struct FixPlan {
    /// The id of the package whose manifest is edited.
    pub pkg_id: String,
    /// That package's name.
    pub pkg_name: String,
    /// The manifest file to edit.
    pub manifest_path: String,
    /// The feature whose implication list receives the values.
    pub feature: String,
    /// The `name/feature` strings to append.
    pub values: Vec<String>,
}

/// What justifies one planned `name/feature` value for package `p`: a
/// dependency flagged as `propagate_missing` that the dependency filter
/// admits.
pub open spec fn fix_value_ok(cmd: PropagateFeatureCmd, meta: Metadata, p: int, v: String) -> bool {
    exists|j: int|
        0 <= j < meta.packages@.len() && propagate_missing_pair(meta, p, j, cmd.feature@)
            && fix_allowed_dep(cmd, meta.packages@[j].name@) && v@ == slash_join(
            meta.packages@[j].name@,
            cmd.feature@,
        )
}

/// What justifies one fix plan: a `propagate_missing` finding for a package
/// the fix options admit, with one `name/feature` value for each flagged
/// dependency that the dependency filter admits — no more and no fewer.
pub open spec fn fix_plan_ok(cmd: PropagateFeatureCmd, meta: Metadata, fp: FixPlan) -> bool {
    exists|p: int|
        #![trigger meta.packages@[p]]
        0 <= p < meta.packages@.len() && in_filter(cmd, meta, p) && fp.pkg_id@
            == meta.packages@[p].id@ && fp.pkg_name@ == meta.packages@[p].name@
            && fp.manifest_path@ == meta.packages@[p].manifest_path@ && fix_allowed_pkg(
            cmd,
            meta.packages@[p].name@,
        ) && fp.feature@ == cmd.feature@ && fp.values@.len() >= 1 && (forall|k: int|
            0 <= k < fp.values@.len() ==> fix_value_ok(cmd, meta, p, #[trigger] fp.values@[k]))
            && (forall|j: int|
            0 <= j < meta.packages@.len() && propagate_missing_pair(meta, p, j, cmd.feature@)
                && fix_allowed_dep(cmd, (#[trigger] meta.packages@[j]).name@)
                ==> spec_contains_string(
                fp.values@,
                slash_join(meta.packages@[j].name@, cmd.feature@),
            ))
}

/// Whether some fix plan of `fps` edits the package whose id reads `x`.
pub open spec fn fixes_contain_id(fps: Seq<FixPlan>, x: Seq<char>) -> bool {
    exists|i: int| 0 <= i < fps.len() && fps[i].pkg_id@ == x
}

/// The report of one Propagate-Feature run. Each flagged package appears at
/// most once per category, in snapshot order.
pub struct PropagateReport {
    /// Packages that lack the feature entirely while a dependency has it.
    pub feature_missing: Vec<Finding>,
    /// Packages that declare the feature but do not forward it to a
    /// dependency that has it.
    pub propagate_missing: Vec<Finding>,
    /// Ids of packages that declare the feature but forward it nowhere:
    /// informational, suppressed from output by default.
    pub feature_maybe_unused: Vec<String>,
    /// The manifest edits the fix options call for.
    pub fixes: Vec<FixPlan>,
}

/// What [`PropagateFeatureCmd::run`] promises of its result.
pub open spec fn propagate_post(
    cmd: PropagateFeatureCmd,
    meta: Metadata,
    r: Result<PropagateReport, MetadataError>,
) -> bool {
    match r {
        Err(e) => e is NoPackagesFound && !(exists|p: int|
            0 <= p < meta.packages@.len() && in_filter(cmd, meta, p)),
        Ok(rep) => {
            &&& (exists|p: int| 0 <= p < meta.packages@.len() && in_filter(cmd, meta, p))
            &&& (forall|i: int|
                0 <= i < rep.feature_missing@.len() ==> some_fm_ok(
                    cmd,
                    meta,
                    #[trigger] rep.feature_missing@[i],
                ))
            &&& (forall|p: int|
                0 <= p < meta.packages@.len() && in_filter(cmd, meta, p) && (exists|j: int|
                    feature_missing_pair(meta, p, j, cmd.feature@)) ==> findings_contain_id(
                    rep.feature_missing@,
                    (#[trigger] meta.packages@[p]).id@,
                ))
            &&& (forall|i: int|
                0 <= i < rep.propagate_missing@.len() ==> some_pm_ok(
                    cmd,
                    meta,
                    #[trigger] rep.propagate_missing@[i],
                ))
            &&& (forall|p: int|
                0 <= p < meta.packages@.len() && in_filter(cmd, meta, p) && (exists|j: int|
                    propagate_missing_pair(meta, p, j, cmd.feature@)) ==> findings_contain_id(
                    rep.propagate_missing@,
                    (#[trigger] meta.packages@[p]).id@,
                ))
            &&& (forall|i: int|
                0 <= i < rep.feature_maybe_unused@.len() ==> some_unused_ok(
                    cmd,
                    meta,
                    #[trigger] rep.feature_maybe_unused@[i],
                ))
            &&& (forall|p: int|
                0 <= p < meta.packages@.len() && in_filter(cmd, meta, p) && feature_maybe_unused(
                    meta,
                    p,
                    cmd.feature@,
                ) ==> spec_contains_string(
                    rep.feature_maybe_unused@,
                    (#[trigger] meta.packages@[p]).id@,
                ))
            &&& (!cmd.fix ==> rep.fixes@.len() == 0)
            &&& (forall|i: int|
                0 <= i < rep.fixes@.len() ==> fix_plan_ok(cmd, meta, #[trigger] rep.fixes@[i]))
            &&& (cmd.fix ==> forall|p: int, j: int|
                #![trigger meta.packages@[p], meta.packages@[j]]
                0 <= p < meta.packages@.len() && in_filter(cmd, meta, p) && fix_allowed_pkg(
                    cmd,
                    meta.packages@[p].name@,
                ) && propagate_missing_pair(meta, p, j, cmd.feature@) && fix_allowed_dep(
                    cmd,
                    meta.packages@[j].name@,
                ) ==> fixes_contain_id(rep.fixes@, meta.packages@[p].id@))
        },
    }
}

/// Checks that every package forwards `feature` to each of its dependencies
/// that declares it, reports the packages that do not, and plans the
/// manifest edits that would mend them.
pub struct PropagateFeatureCmd {
    /// Where and how the snapshot was loaded.
    pub cargo_args: TreeArgs,
    /// The feature to check.
    pub feature: String,
    /// The packages to check; empty means all.
    pub packages: Vec<String>,
    /// Whether to show crate versions in the output.
    pub crate_versions: bool,
    /// Whether to plan fixes for the problems found.
    pub fix: bool,
    /// Restrict fixes to issues whose target dependency has this name.
    pub fix_dependency: Option<String>,
    /// Restrict fixes to issues whose source package has this name.
    pub fix_package: Option<String>,
}


/// Whether `feat` counts as used by package `p` judging only from its first
/// `dmax` dependency declarations.
pub open spec fn used_upto(meta: Metadata, p: int, feat: Seq<char>, dmax: int) -> bool {
    ||| (exists|d: int|
        0 <= d < dmax && spec_resolve(
            meta,
            meta.packages@[p],
            #[trigger] meta.packages@[p].dependencies@[d],
        ) is None)
    ||| (exists|d: int, j: int|
        #![trigger meta.packages@[p].dependencies@[d], meta.packages@[j]]
        0 <= d < dmax && 0 <= j < meta.packages@.len() && spec_resolve(
            meta,
            meta.packages@[p],
            meta.packages@[p].dependencies@[d],
        ) == Some(j) && spec_has_feature(meta.packages@[j].features@, feat) && match spec_get_feature(
            meta.packages@[p].features@,
            feat,
        ) {
            Some(list) => spec_contains_string(list, slash_join(meta.packages@[j].name@, feat)),
            None => false,
        })
}

/// Judging from every dependency declaration is judging the feature used.
pub proof fn lemma_used_full(meta: Metadata, p: int, feat: Seq<char>)
    requires
        0 <= p < meta.packages@.len(),
    ensures
        used_upto(meta, p, feat, meta.packages@[p].dependencies@.len() as int) == feature_used(
            meta,
            p,
            feat,
        ),
{
    let nd = meta.packages@[p].dependencies@.len() as int;
    if used_upto(meta, p, feat, nd) {
        if exists|d: int|
            0 <= d < nd && spec_resolve(
                meta,
                meta.packages@[p],
                #[trigger] meta.packages@[p].dependencies@[d],
            ) is None {
            assert(has_unresolved_dep(meta, p));
        } else {
            let (d, j) = choose|d: int, j: int|
                #![trigger meta.packages@[p].dependencies@[d], meta.packages@[j]]
                0 <= d < nd && 0 <= j < meta.packages@.len() && spec_resolve(
                    meta,
                    meta.packages@[p],
                    meta.packages@[p].dependencies@[d],
                ) == Some(j) && spec_has_feature(meta.packages@[j].features@, feat)
                    && match spec_get_feature(meta.packages@[p].features@, feat) {
                    Some(list) => spec_contains_string(
                        list,
                        slash_join(meta.packages@[j].name@, feat),
                    ),
                    None => false,
                };
            assert(forwards_ok_pair(meta, p, j, feat));
        }
    }
    if feature_used(meta, p, feat) {
        if has_unresolved_dep(meta, p) {
            assert(used_upto(meta, p, feat, nd));
        } else {
            let j = choose|j: int| forwards_ok_pair(meta, p, j, feat);
            let d = choose|d: int|
                0 <= d < meta.packages@[p].dependencies@.len() && spec_resolve(
                    meta,
                    meta.packages@[p],
                    #[trigger] meta.packages@[p].dependencies@[d],
                ) == Some(j) && spec_has_feature(meta.packages@[j].features@, feat);
            assert(used_upto(meta, p, feat, nd));
        }
    }
}


/// Whether dependency declaration `d` of package `p` makes `feat` count as
/// used: it is unresolved, or it resolves to a package that has `feat` and
/// `p` forwards `feat` to it.
pub open spec fn dep_contributes(meta: Metadata, p: int, feat: Seq<char>, d: int) -> bool {
    ||| spec_resolve(meta, meta.packages@[p], meta.packages@[p].dependencies@[d]) is None
    ||| (exists|j: int|
        #![trigger meta.packages@[j]]
        0 <= j < meta.packages@.len() && spec_resolve(
            meta,
            meta.packages@[p],
            meta.packages@[p].dependencies@[d],
        ) == Some(j) && spec_has_feature(meta.packages@[j].features@, feat)
            && match spec_get_feature(meta.packages@[p].features@, feat) {
            Some(list) => spec_contains_string(list, slash_join(meta.packages@[j].name@, feat)),
            None => false,
        })
}

/// One more dependency declaration extends the used-so-far judgment by
/// exactly that declaration's contribution.
pub proof fn lemma_used_upto_step(meta: Metadata, p: int, feat: Seq<char>, d0: int)
    requires
        0 <= p < meta.packages@.len(),
        0 <= d0 < meta.packages@[p].dependencies@.len(),
    ensures
        used_upto(meta, p, feat, d0 + 1) == (used_upto(meta, p, feat, d0) || dep_contributes(
            meta,
            p,
            feat,
            d0,
        )),
{
    if used_upto(meta, p, feat, d0) {
        assert(used_upto(meta, p, feat, d0 + 1)) by {
            if exists|d: int|
                0 <= d < d0 && spec_resolve(
                    meta,
                    meta.packages@[p],
                    #[trigger] meta.packages@[p].dependencies@[d],
                ) is None {
                let d = choose|d: int|
                    0 <= d < d0 && spec_resolve(
                        meta,
                        meta.packages@[p],
                        #[trigger] meta.packages@[p].dependencies@[d],
                    ) is None;
                assert(0 <= d < d0 + 1 && spec_resolve(
                    meta,
                    meta.packages@[p],
                    meta.packages@[p].dependencies@[d],
                ) is None);
            } else {
                let (d, j) = choose|d: int, j: int|
                    #![trigger meta.packages@[p].dependencies@[d], meta.packages@[j]]
                    0 <= d < d0 && 0 <= j < meta.packages@.len() && spec_resolve(
                        meta,
                        meta.packages@[p],
                        meta.packages@[p].dependencies@[d],
                    ) == Some(j) && spec_has_feature(meta.packages@[j].features@, feat)
                        && match spec_get_feature(meta.packages@[p].features@, feat) {
                        Some(list) => spec_contains_string(
                            list,
                            slash_join(meta.packages@[j].name@, feat),
                        ),
                        None => false,
                    };
                assert(0 <= d < d0 + 1);
            }
        }
    }
    if dep_contributes(meta, p, feat, d0) {
        assert(used_upto(meta, p, feat, d0 + 1)) by {
            if spec_resolve(meta, meta.packages@[p], meta.packages@[p].dependencies@[d0])
                is None {
                assert(0 <= d0 < d0 + 1 && spec_resolve(
                    meta,
                    meta.packages@[p],
                    meta.packages@[p].dependencies@[d0],
                ) is None);
            } else {
                let j = choose|j: int|
                    #![trigger meta.packages@[j]]
                    0 <= j < meta.packages@.len() && spec_resolve(
                        meta,
                        meta.packages@[p],
                        meta.packages@[p].dependencies@[d0],
                    ) == Some(j) && spec_has_feature(meta.packages@[j].features@, feat)
                        && match spec_get_feature(meta.packages@[p].features@, feat) {
                        Some(list) => spec_contains_string(
                            list,
                            slash_join(meta.packages@[j].name@, feat),
                        ),
                        None => false,
                    };
                assert(0 <= d0 < d0 + 1);
            }
        }
    }
    if used_upto(meta, p, feat, d0 + 1) {
        assert(used_upto(meta, p, feat, d0) || dep_contributes(meta, p, feat, d0)) by {
            if exists|d: int|
                0 <= d < d0 + 1 && spec_resolve(
                    meta,
                    meta.packages@[p],
                    #[trigger] meta.packages@[p].dependencies@[d],
                ) is None {
                let d = choose|d: int|
                    0 <= d < d0 + 1 && spec_resolve(
                        meta,
                        meta.packages@[p],
                        #[trigger] meta.packages@[p].dependencies@[d],
                    ) is None;
                if d < d0 {
                    assert(used_upto(meta, p, feat, d0));
                } else {
                    assert(dep_contributes(meta, p, feat, d0));
                }
            } else {
                let (d, j) = choose|d: int, j: int|
                    #![trigger meta.packages@[p].dependencies@[d], meta.packages@[j]]
                    0 <= d < d0 + 1 && 0 <= j < meta.packages@.len() && spec_resolve(
                        meta,
                        meta.packages@[p],
                        meta.packages@[p].dependencies@[d],
                    ) == Some(j) && spec_has_feature(meta.packages@[j].features@, feat)
                        && match spec_get_feature(meta.packages@[p].features@, feat) {
                        Some(list) => spec_contains_string(
                            list,
                            slash_join(meta.packages@[j].name@, feat),
                        ),
                        None => false,
                    };
                if d < d0 {
                    assert(used_upto(meta, p, feat, d0));
                } else {
                    assert(dep_contributes(meta, p, feat, d0));
                }
            }
        }
    }
}

impl PropagateFeatureCmd {
    /// Checks every package the filter admits against each of its resolved
    /// dependencies, and reports missing features, missing forwards, the
    /// possibly unused declarations, and the edits the fix options call
    /// for. Fails when the package filter matches nothing.
    pub fn run(&self, meta: &Metadata) -> (r: Result<PropagateReport, MetadataError>)
        requires
            meta.wf(),
        ensures
            propagate_post(*self, *meta, r),
    {
        let ghost feat = self.feature@;
        let ghost cmd = *self;
        let n = meta.packages.len();
        let mut any = false;
        let mut p: usize = 0;
        while p < n
            invariant
                n == meta.packages@.len(),
                0 <= p <= n,
                cmd == *self,
                any == exists|p2: int| 0 <= p2 < p && in_filter(cmd, *meta, p2),
            decreases n - p,
        {
            if self.packages.len() == 0 || contains_string(&self.packages, &meta.packages[p].name) {
                proof {
                    assert(in_filter(cmd, *meta, p as int));
                }
                any = true;
            }
            proof {
                if !any {
                    assert forall|p2: int| 0 <= p2 < p + 1 implies !in_filter(cmd, *meta, p2) by {
                        if p2 < p {
                            assert(!(exists|p3: int| 0 <= p3 < p && in_filter(cmd, *meta, p3)));
                        }
                    }
                }
            }
            p += 1;
        }
        if !any {
            return Err(MetadataError::NoPackagesFound);
        }
        let mut feature_missing: Vec<Finding> = Vec::new();
        let ghost mut fm_pks: Seq<int> = Seq::empty();
        let mut propagate_missing: Vec<Finding> = Vec::new();
        let ghost mut pm_pks: Seq<int> = Seq::empty();
        let mut maybe_unused_ids: Vec<String> = Vec::new();
        let ghost mut mu_pks: Seq<int> = Seq::empty();
        let mut fixes: Vec<FixPlan> = Vec::new();
        let mut p: usize = 0;
        while p < n
            invariant
                meta.wf(),
                n == meta.packages@.len(),
                0 <= p <= n,
                cmd == *self,
                feat == self.feature@,
                fm_pks.len() == feature_missing@.len(),
                forall|i: int|
                    0 <= i < feature_missing@.len() ==> 0 <= #[trigger] fm_pks[i] < n && in_filter(
                        cmd,
                        *meta,
                        fm_pks[i],
                    ) && fm_entry_ok(*meta, fm_pks[i], feature_missing@[i], feat),
                forall|p2: int|
                    0 <= p2 < p && in_filter(cmd, *meta, p2) && (exists|j: int|
                        feature_missing_pair(*meta, p2, j, feat)) ==> findings_contain_id(
                        feature_missing@,
                        (#[trigger] meta.packages@[p2]).id@,
                    ),
                pm_pks.len() == propagate_missing@.len(),
                forall|i: int|
                    0 <= i < propagate_missing@.len() ==> 0 <= #[trigger] pm_pks[i] < n
                        && in_filter(cmd, *meta, pm_pks[i]) && pm_entry_ok(
                        *meta,
                        pm_pks[i],
                        propagate_missing@[i],
                        feat,
                    ),
                forall|p2: int|
                    0 <= p2 < p && in_filter(cmd, *meta, p2) && (exists|j: int|
                        propagate_missing_pair(*meta, p2, j, feat)) ==> findings_contain_id(
                        propagate_missing@,
                        (#[trigger] meta.packages@[p2]).id@,
                    ),
                mu_pks.len() == maybe_unused_ids@.len(),
                forall|i: int|
                    0 <= i < maybe_unused_ids@.len() ==> 0 <= #[trigger] mu_pks[i] < n
                        && in_filter(cmd, *meta, mu_pks[i]) && meta.packages@[mu_pks[i]].id@
                        == maybe_unused_ids@[i]@ && feature_maybe_unused(
                        *meta,
                        mu_pks[i],
                        feat,
                    ),
                forall|p2: int|
                    0 <= p2 < p && in_filter(cmd, *meta, p2) && feature_maybe_unused(
                        *meta,
                        p2,
                        feat,
                    ) ==> spec_contains_string(
                        maybe_unused_ids@,
                        (#[trigger] meta.packages@[p2]).id@,
                    ),
                !cmd.fix ==> fixes@.len() == 0,
                forall|i: int| 0 <= i < fixes@.len() ==> fix_plan_ok(cmd, *meta, #[trigger] fixes@[i]),
                cmd.fix ==> forall|p2: int, j: int|
                    #![trigger meta.packages@[p2], meta.packages@[j]]
                    0 <= p2 < p && in_filter(cmd, *meta, p2) && fix_allowed_pkg(
                        cmd,
                        meta.packages@[p2].name@,
                    ) && propagate_missing_pair(*meta, p2, j, feat) && fix_allowed_dep(
                        cmd,
                        meta.packages@[j].name@,
                    ) ==> fixes_contain_id(fixes@, meta.packages@[p2].id@),
            decreases n - p,
        {
            let pkg = &meta.packages[p];
            let infilt = self.packages.len() == 0 || contains_string(&self.packages, &pkg.name);
            if !infilt {
                p += 1;
                continue ;
            }
            let mut fm_ids: Vec<String> = Vec::new();
            let mut fm_names: Vec<String> = Vec::new();
            let mut pm_ids: Vec<String> = Vec::new();
            let mut pm_names: Vec<String> = Vec::new();
            let mut used = false;
            let nd = pkg.dependencies.len();
            let mut d: usize = 0;
            while d < nd
                invariant
                    meta.wf(),
                    n == meta.packages@.len(),
                    0 <= p < n,
                    *pkg == meta.packages@[p as int],
                    nd == pkg.dependencies@.len(),
                    0 <= d <= nd,
                    cmd == *self,
                    feat == self.feature@,
                    fm_ids@.len() == fm_names@.len(),
                    pm_ids@.len() == pm_names@.len(),
                    used == used_upto(*meta, p as int, feat, d as int),
                    forall|k: int|
                        0 <= k < fm_ids@.len() ==> fm_element_ok(
                            *meta,
                            p as int,
                            #[trigger] fm_ids@[k],
                            fm_names@[k],
                            feat,
                        ),
                    forall|j: int, d2: int|
                        #![trigger meta.packages@[p as int].dependencies@[d2], meta.packages@[j]]
                        0 <= j < n && 0 <= d2 < d && spec_resolve(
                            *meta,
                            meta.packages@[p as int],
                            meta.packages@[p as int].dependencies@[d2],
                        ) == Some(j) && spec_has_feature(meta.packages@[j].features@, feat)
                            && !spec_has_feature(meta.packages@[p as int].features@, feat)
                            ==> spec_contains_string(fm_ids@, meta.packages@[j].id@),
                    forall|k1: int, k2: int|
                        0 <= k1 < k2 < fm_ids@.len() ==> fm_ids@[k1]@ != fm_ids@[k2]@,
                    forall|k: int|
                        0 <= k < pm_ids@.len() ==> pm_element_ok(
                            *meta,
                            p as int,
                            #[trigger] pm_ids@[k],
                            pm_names@[k],
                            feat,
                        ),
                    forall|j: int, d2: int|
                        #![trigger meta.packages@[p as int].dependencies@[d2], meta.packages@[j]]
                        0 <= j < n && 0 <= d2 < d && spec_resolve(
                            *meta,
                            meta.packages@[p as int],
                            meta.packages@[p as int].dependencies@[d2],
                        ) == Some(j) && spec_has_feature(meta.packages@[j].features@, feat)
                            && (match spec_get_feature(meta.packages@[p as int].features@, feat) {
                            Some(list) => !spec_contains_string(
                                list,
                                slash_join(meta.packages@[j].name@, feat),
                            ),
                            None => false,
                        }) ==> spec_contains_string(pm_ids@, meta.packages@[j].id@),
                    forall|k1: int, k2: int|
                        0 <= k1 < k2 < pm_ids@.len() ==> pm_ids@[k1]@ != pm_ids@[k2]@,
                decreases nd - d,
            {
                let ghost d0 = d as int;
                let ghost fm0 = fm_ids@;
                let ghost pm0 = pm_ids@;
                let ghost used0 = used;
                match resolve_dep(pkg, &pkg.dependencies[d], meta) {
                    None => {
                        used = true;
                        proof {
                            lemma_used_upto_step(*meta, p as int, feat, d0);
                            assert(dep_contributes(*meta, p as int, feat, d0));
                        }
                    },
                    Some(j) => {
                        if has_feature(&meta.packages[j].features, &self.feature) {
                            match get_feature(&pkg.features, &self.feature) {
                                None => {
                                    if !contains_string(&fm_ids, &meta.packages[j].id) {
                                        fm_ids.push(meta.packages[j].id.clone());
                                        fm_names.push(meta.packages[j].name.clone());
                                        proof {
                                            let kl = fm_ids@.len() - 1;
                                            assert(forall|k: int|
                                                0 <= k < fm0.len() ==> fm_ids@[k]
                                                    == #[trigger] fm0[k]);
                                            assert(fm_ids@[kl]@ == meta.packages@[j as int].id@);
                                            assert(feature_missing_pair(
                                                *meta,
                                                p as int,
                                                j as int,
                                                feat,
                                            ));
                                            assert(fm_element_ok(
                                                *meta,
                                                p as int,
                                                fm_ids@[kl],
                                                fm_names@[kl],
                                                feat,
                                            ));
                                            assert forall|k1: int, k2: int|
                                                0 <= k1 < k2 < fm_ids@.len() implies fm_ids@[k1]@
                                                != fm_ids@[k2]@ by {
                                                if k2 == kl {
                                                    assert(!spec_contains_string(
                                                        fm0,
                                                        meta.packages@[j as int].id@,
                                                    ));
                                                    assert(fm0[k1] == fm_ids@[k1]);
                                                } else {
                                                    assert(fm0[k1] == fm_ids@[k1]);
                                                    assert(fm0[k2] == fm_ids@[k2]);
                                                }
                                            }
                                        }
                                    }
                                    proof {
                                        lemma_used_upto_step(*meta, p as int, feat, d0);
                                        assert(!dep_contributes(*meta, p as int, feat, d0)) by {
                                            if dep_contributes(*meta, p as int, feat, d0) {
                                                let j2 = choose|j2: int|
                                                    #![trigger meta.packages@[j2]]
                                                    0 <= j2 < meta.packages@.len() && spec_resolve(
                                                        *meta,
                                                        meta.packages@[p as int],
                                                        meta.packages@[p as int].dependencies@[d0],
                                                    ) == Some(j2) && spec_has_feature(
                                                        meta.packages@[j2].features@,
                                                        feat,
                                                    ) && match spec_get_feature(
                                                        meta.packages@[p as int].features@,
                                                        feat,
                                                    ) {
                                                        Some(list) => spec_contains_string(
                                                            list,
                                                            slash_join(
                                                                meta.packages@[j2].name@,
                                                                feat,
                                                            ),
                                                        ),
                                                        None => false,
                                                    };
                                                assert(false);
                                            }
                                        }
                                    }
                                },
                                Some(enabled) => {
                                    let pat = make_slash_join(
                                        meta.packages[j].name.as_str(),
                                        self.feature.as_str(),
                                    );
                                    if contains_string(enabled, &pat) {
                                        used = true;
                                        proof {
                                            lemma_used_upto_step(*meta, p as int, feat, d0);
                                            assert(dep_contributes(*meta, p as int, feat, d0)) by {
                                                assert(pat@ == slash_join(
                                                    meta.packages@[j as int].name@,
                                                    feat,
                                                ));
                                                assert(0 <= (j as int) < meta.packages@.len()
                                                    && spec_resolve(
                                                    *meta,
                                                    meta.packages@[p as int],
                                                    meta.packages@[p as int].dependencies@[d0],
                                                ) == Some(j as int) && spec_has_feature(
                                                    meta.packages@[j as int].features@,
                                                    feat,
                                                ));
                                            }
                                        }
                                    } else {
                                        if !contains_string(&pm_ids, &meta.packages[j].id) {
                                            pm_ids.push(meta.packages[j].id.clone());
                                            pm_names.push(meta.packages[j].name.clone());
                                            proof {
                                                let kl = pm_ids@.len() - 1;
                                                assert(forall|k: int|
                                                    0 <= k < pm0.len() ==> pm_ids@[k]
                                                        == #[trigger] pm0[k]);
                                                assert(pm_ids@[kl]@
                                                    == meta.packages@[j as int].id@);
                                                assert(propagate_missing_pair(
                                                    *meta,
                                                    p as int,
                                                    j as int,
                                                    feat,
                                                ));
                                                assert(pm_element_ok(
                                                    *meta,
                                                    p as int,
                                                    pm_ids@[kl],
                                                    pm_names@[kl],
                                                    feat,
                                                ));
                                                assert forall|k1: int, k2: int|
                                                    0 <= k1 < k2 < pm_ids@.len() implies pm_ids@[k1]@
                                                    != pm_ids@[k2]@ by {
                                                    if k2 == kl {
                                                        assert(!spec_contains_string(
                                                            pm0,
                                                            meta.packages@[j as int].id@,
                                                        ));
                                                        assert(pm0[k1] == pm_ids@[k1]);
                                                    } else {
                                                        assert(pm0[k1] == pm_ids@[k1]);
                                                        assert(pm0[k2] == pm_ids@[k2]);
                                                    }
                                                }
                                            }
                                        }
                                        proof {
                                            lemma_used_upto_step(*meta, p as int, feat, d0);
                                            assert(!dep_contributes(*meta, p as int, feat, d0))
                                                by {
                                                if dep_contributes(*meta, p as int, feat, d0) {
                                                    let j2 = choose|j2: int|
                                                        #![trigger meta.packages@[j2]]
                                                        0 <= j2 < meta.packages@.len()
                                                            && spec_resolve(
                                                            *meta,
                                                            meta.packages@[p as int],
                                                            meta.packages@[p as int].dependencies@[d0],
                                                        ) == Some(j2) && spec_has_feature(
                                                            meta.packages@[j2].features@,
                                                            feat,
                                                        ) && match spec_get_feature(
                                                            meta.packages@[p as int].features@,
                                                            feat,
                                                        ) {
                                                            Some(list) => spec_contains_string(
                                                                list,
                                                                slash_join(
                                                                    meta.packages@[j2].name@,
                                                                    feat,
                                                                ),
                                                            ),
                                                            None => false,
                                                        };
                                                    assert(j2 == j as int);
                                                    assert(pat@ == slash_join(
                                                        meta.packages@[j2].name@,
                                                        feat,
                                                    ));
                                                    assert(false);
                                                }
                                            }
                                        }
                                    }
                                },
                            }
                        } else {
                            proof {
                                lemma_used_upto_step(*meta, p as int, feat, d0);
                                assert(!dep_contributes(*meta, p as int, feat, d0)) by {
                                    if dep_contributes(*meta, p as int, feat, d0) {
                                        let j2 = choose|j2: int|
                                            #![trigger meta.packages@[j2]]
                                            0 <= j2 < meta.packages@.len() && spec_resolve(
                                                *meta,
                                                meta.packages@[p as int],
                                                meta.packages@[p as int].dependencies@[d0],
                                            ) == Some(j2) && spec_has_feature(
                                                meta.packages@[j2].features@,
                                                feat,
                                            ) && match spec_get_feature(
                                                meta.packages@[p as int].features@,
                                                feat,
                                            ) {
                                                Some(list) => spec_contains_string(
                                                    list,
                                                    slash_join(meta.packages@[j2].name@, feat),
                                                ),
                                                None => false,
                                            };
                                        assert(j2 == j as int);
                                        assert(false);
                                    }
                                }
                            }
                        }
                        proof {
                            assert forall|j2: int, d2: int|
                                #![trigger meta.packages@[p as int].dependencies@[d2], meta.packages@[j2]]
                                0 <= j2 < n && 0 <= d2 < d0 + 1 && spec_resolve(
                                    *meta,
                                    meta.packages@[p as int],
                                    meta.packages@[p as int].dependencies@[d2],
                                ) == Some(j2) && spec_has_feature(meta.packages@[j2].features@, feat)
                                    && !spec_has_feature(meta.packages@[p as int].features@, feat)
                                    implies spec_contains_string(
                                fm_ids@,
                                meta.packages@[j2].id@,
                            ) by {
                                if fm_ids@ != fm0 {
                                    assert forall|x: Seq<char>|
                                        spec_contains_string(fm0, x) implies spec_contains_string(
                                        fm_ids@,
                                        x,
                                    ) by {
                                        let k = choose|k: int|
                                            0 <= k < fm0.len() && #[trigger] fm0[k]@ == x;
                                        assert(fm_ids@[k]@ == x);
                                    }
                                }
                                if d2 == d0 {
                                    assert(j2 == j as int);
                                    if spec_contains_string(fm0, meta.packages@[j as int].id@) {
                                    } else {
                                        let kl = fm_ids@.len() - 1;
                                        assert(fm_ids@[kl]@ == meta.packages@[j2].id@);
                                    }
                                }
                            }
                            assert forall|j2: int, d2: int|
                                #![trigger meta.packages@[p as int].dependencies@[d2], meta.packages@[j2]]
                                0 <= j2 < n && 0 <= d2 < d0 + 1 && spec_resolve(
                                    *meta,
                                    meta.packages@[p as int],
                                    meta.packages@[p as int].dependencies@[d2],
                                ) == Some(j2) && spec_has_feature(meta.packages@[j2].features@, feat)
                                    && (match spec_get_feature(
                                    meta.packages@[p as int].features@,
                                    feat,
                                ) {
                                    Some(list) => !spec_contains_string(
                                        list,
                                        slash_join(meta.packages@[j2].name@, feat),
                                    ),
                                    None => false,
                                }) implies spec_contains_string(
                                pm_ids@,
                                meta.packages@[j2].id@,
                            ) by {
                                if pm_ids@ != pm0 {
                                    assert forall|x: Seq<char>|
                                        spec_contains_string(pm0, x) implies spec_contains_string(
                                        pm_ids@,
                                        x,
                                    ) by {
                                        let k = choose|k: int|
                                            0 <= k < pm0.len() && #[trigger] pm0[k]@ == x;
                                        assert(pm_ids@[k]@ == x);
                                    }
                                }
                                if d2 == d0 {
                                    assert(j2 == j as int);
                                    if spec_contains_string(pm0, meta.packages@[j as int].id@) {
                                    } else {
                                        let kl = pm_ids@.len() - 1;
                                        assert(pm_ids@[kl]@ == meta.packages@[j2].id@);
                                    }
                                }
                            }
                        }
                    },
                }
                d += 1;
            }
            proof {
                lemma_used_full(*meta, p as int, feat);
            }
            if fm_ids.len() > 0 {
                let ghost ids_f = fm_ids@;
                let ghost names_f = fm_names@;
                let entry = Finding {
                    pkg_id: pkg.id.clone(),
                    pkg_name: pkg.name.clone(),
                    manifest_path: pkg.manifest_path.clone(),
                    dep_ids: fm_ids,
                    dep_names: fm_names,
                };
                proof {
                    assert(entry.dep_ids@ == ids_f);
                    assert(entry.dep_names@ == names_f);
                    assert forall|j: int|
                        feature_missing_pair(*meta, p as int, j, feat) implies spec_contains_string(
                        entry.dep_ids@,
                        meta.packages@[j].id@,
                    ) by {
                        let d2 = choose|d2: int|
                            0 <= d2 < meta.packages@[p as int].dependencies@.len() && spec_resolve(
                                *meta,
                                meta.packages@[p as int],
                                #[trigger] meta.packages@[p as int].dependencies@[d2],
                            ) == Some(j) && spec_has_feature(meta.packages@[j].features@, feat);
                    }
                    assert(fm_entry_ok(*meta, p as int, entry, feat));
                }
                let ghost r0 = feature_missing@;
                let ghost entry_g = entry;
                feature_missing.push(entry);
                proof {
                    fm_pks = fm_pks.push(p as int);
                    assert forall|i: int|
                        0 <= i < feature_missing@.len() implies 0 <= #[trigger] fm_pks[i] < n
                            && in_filter(cmd, *meta, fm_pks[i]) && fm_entry_ok(
                            *meta,
                            fm_pks[i],
                            feature_missing@[i],
                            feat,
                        ) by {
                        if i < r0.len() {
                            assert(feature_missing@[i] == r0[i]);
                        } else {
                            assert(feature_missing@[i] == entry_g && fm_pks[i] == p as int);
                        }
                    }
                    assert forall|p2: int|
                        0 <= p2 < p + 1 && in_filter(cmd, *meta, p2) && (exists|j: int|
                            feature_missing_pair(*meta, p2, j, feat)) implies findings_contain_id(
                        feature_missing@,
                        (#[trigger] meta.packages@[p2]).id@,
                    ) by {
                        lemma_findings_push(r0, entry_g, meta.packages@[p2].id@);
                        if p2 == p as int {
                            assert(feature_missing@[feature_missing@.len() - 1].pkg_id@
                                == meta.packages@[p2].id@);
                        }
                    }
                }
            } else {
                proof {
                    assert forall|j: int| !feature_missing_pair(*meta, p as int, j, feat) by {
                        if feature_missing_pair(*meta, p as int, j, feat) {
                            let d2 = choose|d2: int|
                                0 <= d2 < meta.packages@[p as int].dependencies@.len()
                                    && spec_resolve(
                                    *meta,
                                    meta.packages@[p as int],
                                    #[trigger] meta.packages@[p as int].dependencies@[d2],
                                ) == Some(j) && spec_has_feature(
                                    meta.packages@[j].features@,
                                    feat,
                                );
                            assert(spec_contains_string(fm_ids@, meta.packages@[j].id@));
                            assert(false);
                        }
                    }
                }
            }
            let has_pm = pm_ids.len() > 0;
            let ghost pm_ids_f = pm_ids@;
            let ghost pm_names_f = pm_names@;
            // Plan the fixes for this package, under the fix options.
            if self.fix && has_pm {
                let pkg_allowed = match &self.fix_package {
                    None => true,
                    Some(fp) => fp.eq(&pkg.name),
                };
                if pkg_allowed {
                    let nv = pm_names.len();
                    let mut values: Vec<String> = Vec::new();
                    let mut k: usize = 0;
                    while k < nv
                        invariant
                            meta.wf(),
                            n == meta.packages@.len(),
                            0 <= p < n,
                            *pkg == meta.packages@[p as int],
                            cmd == *self,
                            feat == self.feature@,
                            nv == pm_names@.len(),
                            pm_names@ == pm_names_f,
                            pm_ids_f.len() == pm_names_f.len(),
                            0 <= k <= nv,
                            forall|k2: int|
                                0 <= k2 < pm_ids_f.len() ==> pm_element_ok(
                                    *meta,
                                    p as int,
                                    #[trigger] pm_ids_f[k2],
                                    pm_names_f[k2],
                                    feat,
                                ),
                            forall|i: int|
                                0 <= i < values@.len() ==> fix_value_ok(
                                    cmd,
                                    *meta,
                                    p as int,
                                    #[trigger] values@[i],
                                ),
                            forall|j: int|
                                #![trigger meta.packages@[j]]
                                0 <= j < n && spec_contains_string(
                                    pm_ids_f.subrange(0, k as int),
                                    meta.packages@[j].id@,
                                ) && fix_allowed_dep(cmd, meta.packages@[j].name@)
                                    ==> spec_contains_string(
                                    values@,
                                    slash_join(meta.packages@[j].name@, feat),
                                ),
                        decreases nv - k,
                    {
                        let dep_allowed = match &self.fix_dependency {
                            None => true,
                            Some(fd) => fd.eq(&pm_names[k]),
                        };
                        let ghost vals0 = values@;
                        if dep_allowed {
                            let v = make_slash_join(pm_names[k].as_str(), self.feature.as_str());
                            proof {
                                assert(pm_element_ok(
                                    *meta,
                                    p as int,
                                    pm_ids_f[k as int],
                                    pm_names_f[k as int],
                                    feat,
                                ));
                                let j = choose|j: int|
                                    0 <= j < meta.packages@.len() && meta.packages@[j].id@
                                        == pm_ids_f[k as int]@ && meta.packages@[j].name@
                                        == pm_names_f[k as int]@ && propagate_missing_pair(
                                        *meta,
                                        p as int,
                                        j,
                                        feat,
                                    );
                                assert(v@ == slash_join(meta.packages@[j].name@, feat));
                                assert(fix_value_ok(cmd, *meta, p as int, v));
                            }
                            values.push(v);
                            proof {
                                assert(forall|i: int|
                                    0 <= i < vals0.len() ==> values@[i] == #[trigger] vals0[i]);
                            }
                        }
                        proof {
                            assert forall|j: int|
                                #![trigger meta.packages@[j]]
                                0 <= j < n && spec_contains_string(
                                    pm_ids_f.subrange(0, k + 1 as int),
                                    meta.packages@[j].id@,
                                ) && fix_allowed_dep(cmd, meta.packages@[j].name@)
                                implies spec_contains_string(
                                values@,
                                slash_join(meta.packages@[j].name@, feat),
                            ) by {
                                if values@ != vals0 {
                                    assert forall|x: Seq<char>|
                                        spec_contains_string(vals0, x)
                                            implies spec_contains_string(values@, x) by {
                                        let m = choose|m: int|
                                            0 <= m < vals0.len() && #[trigger] vals0[m]@ == x;
                                        assert(values@[m]@ == x);
                                    }
                                }
                                let k2 = choose|k2: int|
                                    0 <= k2 < k + 1 && #[trigger] pm_ids_f.subrange(
                                        0,
                                        k + 1 as int,
                                    )[k2]@ == meta.packages@[j].id@;
                                if k2 < k as int {
                                    assert(pm_ids_f.subrange(0, k as int)[k2]@
                                        == meta.packages@[j].id@);
                                    assert(spec_contains_string(
                                        pm_ids_f.subrange(0, k as int),
                                        meta.packages@[j].id@,
                                    ));
                                    assert(spec_contains_string(
                                        vals0,
                                        slash_join(meta.packages@[j].name@, feat),
                                    ));
                                } else {
                                    // The entry at `k` names this very
                                    // dependency: its name matches, so the
                                    // dependency filter admitted it and its
                                    // value was just pushed.
                                    assert(pm_ids_f[k as int]@ == meta.packages@[j].id@);
                                    assert(pm_element_ok(
                                        *meta,
                                        p as int,
                                        pm_ids_f[k as int],
                                        pm_names_f[k as int],
                                        feat,
                                    ));
                                    let j2 = choose|j2: int|
                                        0 <= j2 < meta.packages@.len() && meta.packages@[j2].id@
                                            == pm_ids_f[k as int]@ && meta.packages@[j2].name@
                                            == pm_names_f[k as int]@ && propagate_missing_pair(
                                            *meta,
                                            p as int,
                                            j2,
                                            feat,
                                        );
                                    assert(j2 == j) by {
                                        if j2 != j {
                                            assert(meta.packages@[j2].id@
                                                == meta.packages@[j].id@);
                                        }
                                    }
                                    assert(dep_allowed);
                                    assert(values@[values@.len() - 1]@ == slash_join(
                                        meta.packages@[j].name@,
                                        feat,
                                    ));
                                }
                            }
                        }
                        k += 1;
                    }
                    if values.len() > 0 {
                        let ghost vals_f = values@;
                        let plan = FixPlan {
                            pkg_id: pkg.id.clone(),
                            pkg_name: pkg.name.clone(),
                            manifest_path: pkg.manifest_path.clone(),
                            feature: self.feature.clone(),
                            values,
                        };
                        proof {
                            assert(plan.values@ == vals_f);
                            assert forall|j: int|
                                0 <= j < meta.packages@.len() && propagate_missing_pair(
                                    *meta,
                                    p as int,
                                    j,
                                    cmd.feature@,
                                ) && fix_allowed_dep(cmd, (#[trigger] meta.packages@[j]).name@)
                                implies spec_contains_string(
                                plan.values@,
                                slash_join(meta.packages@[j].name@, cmd.feature@),
                            ) by {
                                let d2 = choose|d2: int|
                                    0 <= d2 < meta.packages@[p as int].dependencies@.len()
                                        && spec_resolve(
                                        *meta,
                                        meta.packages@[p as int],
                                        #[trigger] meta.packages@[p as int].dependencies@[d2],
                                    ) == Some(j) && spec_has_feature(
                                        meta.packages@[j].features@,
                                        feat,
                                    );
                                assert(spec_contains_string(pm_ids_f, meta.packages@[j].id@));
                                assert(pm_ids_f.subrange(0, pm_ids_f.len() as int) =~= pm_ids_f);
                            }
                            assert(fix_plan_ok(cmd, *meta, plan)) by {
                                assert(0 <= (p as int) < meta.packages@.len() && in_filter(
                                    cmd,
                                    *meta,
                                    p as int,
                                ) && plan.pkg_id@ == meta.packages@[p as int].id@ && plan.pkg_name@
                                    == meta.packages@[p as int].name@ && plan.manifest_path@
                                    == meta.packages@[p as int].manifest_path@ && fix_allowed_pkg(
                                    cmd,
                                    meta.packages@[p as int].name@,
                                ) && plan.feature@ == cmd.feature@ && plan.values@.len() >= 1 && (
                                forall|k2: int|
                                    0 <= k2 < plan.values@.len() ==> fix_value_ok(
                                        cmd,
                                        *meta,
                                        p as int,
                                        #[trigger] plan.values@[k2],
                                    )));
                            }
                        }
                        let ghost f0 = fixes@;
                        let ghost plan_g = plan;
                        fixes.push(plan);
                        proof {
                            assert(forall|i: int|
                                0 <= i < f0.len() ==> fixes@[i] == #[trigger] f0[i]);
                            assert(fixes@[fixes@.len() - 1] == plan_g);
                            assert forall|p2: int, j: int|
                                #![trigger meta.packages@[p2], meta.packages@[j]]
                                0 <= p2 < p + 1 && in_filter(cmd, *meta, p2) && fix_allowed_pkg(
                                    cmd,
                                    meta.packages@[p2].name@,
                                ) && propagate_missing_pair(*meta, p2, j, feat) && fix_allowed_dep(
                                    cmd,
                                    meta.packages@[j].name@,
                                ) implies fixes_contain_id(
                                fixes@,
                                meta.packages@[p2].id@,
                            ) by {
                                if p2 < p as int {
                                    let i = choose|i: int|
                                        0 <= i < f0.len() && #[trigger] f0[i].pkg_id@
                                            == meta.packages@[p2].id@;
                                    assert(fixes@[i].pkg_id@ == meta.packages@[p2].id@);
                                } else {
                                    assert(fixes@[fixes@.len() - 1].pkg_id@
                                        == meta.packages@[p2].id@);
                                }
                            }
                        }
                    } else {
                        proof {
                            assert forall|p2: int, j: int|
                                #![trigger meta.packages@[p2], meta.packages@[j]]
                                0 <= p2 < p + 1 && in_filter(cmd, *meta, p2) && fix_allowed_pkg(
                                    cmd,
                                    meta.packages@[p2].name@,
                                ) && propagate_missing_pair(*meta, p2, j, feat) && fix_allowed_dep(
                                    cmd,
                                    meta.packages@[j].name@,
                                ) implies fixes_contain_id(
                                fixes@,
                                meta.packages@[p2].id@,
                            ) by {
                                if p2 == p as int {
                                    assert(spec_contains_string(pm_ids_f, meta.packages@[j].id@));
                                    assert(pm_ids_f.subrange(0, pm_ids_f.len() as int)
                                        =~= pm_ids_f);
                                    assert(spec_contains_string(
                                        values@,
                                        slash_join(meta.packages@[j].name@, feat),
                                    ));
                                    let m = choose|m: int|
                                        0 <= m < values@.len() && #[trigger] values@[m]@
                                            == slash_join(meta.packages@[j].name@, feat);
                                    assert(false);
                                }
                            }
                        }
                    }
                } else {
                    proof {
                        assert(!fix_allowed_pkg(cmd, meta.packages@[p as int].name@));
                    }
                }
            } else {
                proof {
                    if cmd.fix {
                        assert forall|j: int| !propagate_missing_pair(*meta, p as int, j, feat)
                            by {
                            if propagate_missing_pair(*meta, p as int, j, feat) {
                                assert(spec_contains_string(pm_ids_f, meta.packages@[j].id@));
                            }
                        }
                    }
                }
            }
            if has_pm {
                let entry = Finding {
                    pkg_id: pkg.id.clone(),
                    pkg_name: pkg.name.clone(),
                    manifest_path: pkg.manifest_path.clone(),
                    dep_ids: pm_ids,
                    dep_names: pm_names,
                };
                proof {
                    assert(entry.dep_ids@ == pm_ids_f);
                    assert(entry.dep_names@ == pm_names_f);
                    assert forall|j: int|
                        propagate_missing_pair(*meta, p as int, j, feat)
                            implies spec_contains_string(
                        entry.dep_ids@,
                        meta.packages@[j].id@,
                    ) by {
                        let d2 = choose|d2: int|
                            0 <= d2 < meta.packages@[p as int].dependencies@.len() && spec_resolve(
                                *meta,
                                meta.packages@[p as int],
                                #[trigger] meta.packages@[p as int].dependencies@[d2],
                            ) == Some(j) && spec_has_feature(meta.packages@[j].features@, feat);
                    }
                    assert(pm_entry_ok(*meta, p as int, entry, feat));
                }
                let ghost r0 = propagate_missing@;
                let ghost entry_g = entry;
                propagate_missing.push(entry);
                proof {
                    pm_pks = pm_pks.push(p as int);
                    assert forall|i: int|
                        0 <= i < propagate_missing@.len() implies 0 <= #[trigger] pm_pks[i] < n
                            && in_filter(cmd, *meta, pm_pks[i]) && pm_entry_ok(
                            *meta,
                            pm_pks[i],
                            propagate_missing@[i],
                            feat,
                        ) by {
                        if i < r0.len() {
                            assert(propagate_missing@[i] == r0[i]);
                        } else {
                            assert(propagate_missing@[i] == entry_g && pm_pks[i] == p as int);
                        }
                    }
                    assert forall|p2: int|
                        0 <= p2 < p + 1 && in_filter(cmd, *meta, p2) && (exists|j: int|
                            propagate_missing_pair(*meta, p2, j, feat))
                            implies findings_contain_id(
                        propagate_missing@,
                        (#[trigger] meta.packages@[p2]).id@,
                    ) by {
                        lemma_findings_push(r0, entry_g, meta.packages@[p2].id@);
                        if p2 == p as int {
                            assert(propagate_missing@[propagate_missing@.len() - 1].pkg_id@
                                == meta.packages@[p2].id@);
                        }
                    }
                }
            } else {
                proof {
                    assert forall|j: int| !propagate_missing_pair(*meta, p as int, j, feat) by {
                        if propagate_missing_pair(*meta, p as int, j, feat) {
                            let d2 = choose|d2: int|
                                0 <= d2 < meta.packages@[p as int].dependencies@.len()
                                    && spec_resolve(
                                    *meta,
                                    meta.packages@[p as int],
                                    #[trigger] meta.packages@[p as int].dependencies@[d2],
                                ) == Some(j) && spec_has_feature(
                                    meta.packages@[j].features@,
                                    feat,
                                );
                            assert(spec_contains_string(pm_ids_f, meta.packages@[j].id@));
                            assert(false);
                        }
                    }
                }
            }
            // The informational flag.
            let declares = has_feature(&pkg.features, &self.feature);
            if !used && declares {
                let ghost mu0 = maybe_unused_ids@;
                maybe_unused_ids.push(pkg.id.clone());
                proof {
                    mu_pks = mu_pks.push(p as int);
                    lemma_contains_string_push(mu0, meta.packages@[p as int].id, pkg.id@);
                    assert(maybe_unused_ids@ == mu0.push(meta.packages@[p as int].id));
                    assert forall|i: int|
                        0 <= i < maybe_unused_ids@.len() implies 0 <= #[trigger] mu_pks[i] < n
                            && in_filter(cmd, *meta, mu_pks[i]) && meta.packages@[mu_pks[i]].id@
                            == maybe_unused_ids@[i]@ && feature_maybe_unused(
                            *meta,
                            mu_pks[i],
                            feat,
                        ) by {
                        if i < mu0.len() {
                            assert(maybe_unused_ids@[i] == mu0[i]);
                        } else {
                            assert(mu_pks[i] == p as int);
                        }
                    }
                    assert forall|p2: int|
                        0 <= p2 < p + 1 && in_filter(cmd, *meta, p2) && feature_maybe_unused(
                            *meta,
                            p2,
                            feat,
                        ) implies spec_contains_string(
                        maybe_unused_ids@,
                        (#[trigger] meta.packages@[p2]).id@,
                    ) by {
                        lemma_contains_string_push(
                            mu0,
                            meta.packages@[p as int].id,
                            meta.packages@[p2].id@,
                        );
                    }
                }
            }
            p += 1;
        }
        proof {
            assert forall|i: int| 0 <= i < feature_missing@.len() implies some_fm_ok(
                cmd,
                *meta,
                #[trigger] feature_missing@[i],
            ) by {
                assert(0 <= fm_pks[i] < meta.packages@.len() && in_filter(cmd, *meta, fm_pks[i])
                    && fm_entry_ok(*meta, fm_pks[i], feature_missing@[i], cmd.feature@));
            }
            assert forall|i: int| 0 <= i < propagate_missing@.len() implies some_pm_ok(
                cmd,
                *meta,
                #[trigger] propagate_missing@[i],
            ) by {
                assert(0 <= pm_pks[i] < meta.packages@.len() && in_filter(cmd, *meta, pm_pks[i])
                    && pm_entry_ok(*meta, pm_pks[i], propagate_missing@[i], cmd.feature@));
            }
            assert forall|i: int| 0 <= i < maybe_unused_ids@.len() implies some_unused_ok(
                cmd,
                *meta,
                #[trigger] maybe_unused_ids@[i],
            ) by {
                assert(0 <= mu_pks[i] < meta.packages@.len() && in_filter(cmd, *meta, mu_pks[i])
                    && meta.packages@[mu_pks[i]].id@ == maybe_unused_ids@[i]@
                    && feature_maybe_unused(*meta, mu_pks[i], cmd.feature@));
            }
        }
        Ok(
            PropagateReport {
                feature_missing,
                propagate_missing,
                feature_maybe_unused: maybe_unused_ids,
                fixes,
            },
        )
    }
}


/// Whether the vertex id `id` names a package of the snapshot: placeholder
/// vertices for unresolvable dependencies do not.
pub open spec fn renderable(meta: Metadata, id: Seq<char>) -> bool {
    find_package(meta.packages@, id) is Some
}

/// How one path vertex is rendered: `name/feature`, optionally annotated
/// with the package's version and its source registry.
pub open spec fn spec_render_vertex(
    meta: Metadata,
    v: (Seq<char>, Seq<char>),
    show_version: bool,
    show_source: bool,
) -> Seq<char> {
    let j = find_package(meta.packages@, v.0).unwrap();
    let base = meta.packages@[j].name@ + seq!['/'] + v.1;
    let with_v = if show_version {
        base + seq![' ', 'v'] + meta.packages@[j].version@
    } else {
        base
    };
    if show_source {
        match meta.packages@[j].source {
            Some(src) => with_v + seq![' ', '('] + src@ + seq![')'],
            None => with_v,
        }
    } else {
        with_v
    }
}

/// How a whole path is rendered: its vertices, joined by the delimiter.
pub open spec fn spec_render_path(
    meta: Metadata,
    pv: Seq<(Seq<char>, Seq<char>)>,
    delim: Seq<char>,
    show_version: bool,
    show_source: bool,
) -> Seq<char>
    decreases pv.len(),
{
    if pv.len() == 0 {
        Seq::empty()
    } else if pv.len() == 1 {
        spec_render_vertex(meta, pv[0], show_version, show_source)
    } else {
        spec_render_path(meta, pv.drop_last(), delim, show_version, show_source) + delim
            + spec_render_vertex(meta, pv.last(), show_version, show_source)
    }
}

/// Renders one vertex, or fails on a vertex whose id names no package.
fn render_vertex(meta: &Metadata, v: &CrateAndFeature, show_version: bool, show_source: bool) -> (r:
    Result<String, MetadataError>)
    ensures
        match r {
            Ok(s) => renderable(*meta, v@.0) && s@ == spec_render_vertex(
                *meta,
                v@,
                show_version,
                show_source,
            ),
            Err(e) => e matches MetadataError::UnknownPackageId(id) && id@ == v@.0 && find_package(
                meta.packages@,
                id@,
            ) is None,
        },
{
    let j = match meta.find_package_by_id(&v.0) {
        Some(j) => j,
        None => {
            return Err(MetadataError::UnknownPackageId(v.0.clone()));
        },
    };
    let pkg = &meta.packages[j];
    let mut out: String = pkg.name.clone();
    out.append("/");
    out.append(v.1.as_str());
    proof {
        reveal_strlit("/");
        assert(out@ =~= meta.packages@[j as int].name@ + seq!['/'] + v@.1);
    }
    if show_version {
        out.append(" v");
        out.append(pkg.version.as_str());
        proof {
            reveal_strlit(" v");
            assert(out@ =~= (meta.packages@[j as int].name@ + seq!['/'] + v@.1) + seq![' ', 'v']
                + meta.packages@[j as int].version@);
        }
    }
    if show_source {
        match &pkg.source {
            Some(src) => {
                out.append(" (");
                out.append(src.as_str());
                out.append(")");
                proof {
                    reveal_strlit(" (");
                    reveal_strlit(")");
                    assert(out@ =~= spec_render_vertex(*meta, v@, show_version, show_source));
                }
            },
            None => {},
        }
    }
    proof {
        assert(out@ =~= spec_render_vertex(*meta, v@, show_version, show_source));
    }
    Ok(out)
}

/// Renders a whole path with the given delimiter, or fails on the first
/// vertex whose id names no package.
fn render_path(
    meta: &Metadata,
    path: &Vec<CrateAndFeature>,
    delim: &String,
    show_version: bool,
    show_source: bool,
) -> (r: Result<String, MetadataError>)
    ensures
        match r {
            Ok(s) => (forall|k: int|
                0 <= k < path@.len() ==> renderable(*meta, (#[trigger] path@[k])@.0)) && s@
                == spec_render_path(
                *meta,
                path@.map_values(|x: CrateAndFeature| x@),
                delim@,
                show_version,
                show_source,
            ),
            Err(e) => e matches MetadataError::UnknownPackageId(id) && find_package(
                meta.packages@,
                id@,
            ) is None && exists|m: int|
                0 <= m < path@.len() && ((#[trigger] path@[m])@).0 == id@,
        },
{
    let ghost pv = path@.map_values(|x: CrateAndFeature| x@);
    let n = path.len();
    let mut out = String::new();
    let mut k: usize = 0;
    proof {
        assert(pv.subrange(0, 0) =~= Seq::empty());
    }
    while k < n
        invariant
            n == path@.len(),
            pv == path@.map_values(|x: CrateAndFeature| x@),
            0 <= k <= n,
            forall|m: int| 0 <= m < k ==> renderable(*meta, (#[trigger] path@[m])@.0),
            out@ == spec_render_path(*meta, pv.subrange(0, k as int), delim@, show_version, show_source),
        decreases n - k,
    {
        let piece = match render_vertex(meta, &path[k], show_version, show_source) {
            Ok(piece) => piece,
            Err(e) => {
                proof {
                    // The failing vertex is the witness.
                    let idv = match &e {
                        MetadataError::UnknownPackageId(s) => s@,
                        _ => Seq::<char>::empty(),
                    };
                    assert(idv == ((path@[k as int])@).0);
                    assert(exists|m: int|
                        0 <= m < path@.len() && ((#[trigger] path@[m])@).0 == idv);
                }
                return Err(e);
            },
        };
        if k > 0 {
            out.append(delim.as_str());
        }
        out.append(piece.as_str());
        proof {
            let sub1 = pv.subrange(0, k + 1 as int);
            assert(sub1.drop_last() =~= pv.subrange(0, k as int));
            assert(sub1.last() == pv[k as int]);
            assert(pv[k as int] == path@[k as int]@);
            if k == 0 {
                assert(out@ =~= spec_render_path(*meta, sub1, delim@, show_version, show_source));
            } else {
                assert(out@ =~= spec_render_path(*meta, sub1, delim@, show_version, show_source));
            }
        }
        k += 1;
    }
    proof {
        assert(pv.subrange(0, n as int) =~= pv);
    }
    Ok(out)
}

/// Whether `pv` is the path the scan stops at: a shortest path in the
/// implication graph from the first offending `precondition` vertex in
/// `lhs_nodes` order to the first vertex along it carrying
/// `stays_disabled`.
pub open spec fn violating_path(
    cmd: NeverImpliesCmd,
    meta: Metadata,
    pv: Seq<(Seq<char>, Seq<char>)>,
) -> bool {
    let g = spec_build_graph(meta);
    &&& pv.len() >= 1
    &&& is_path(g, pv)
    &&& pv[0].1 == cmd.precondition@
    &&& pv.last().1 == cmd.stays_disabled@
    &&& (forall|k: int| 0 <= k < pv.len() - 1 ==> (#[trigger] pv[k]).1 != cmd.stays_disabled@)
    &&& (forall|q: Seq<(Seq<char>, Seq<char>)>|
        is_path(g, q) && q[0] == pv[0] && (#[trigger] q.last()).1 == cmd.stays_disabled@
            ==> q.len() >= pv.len())
    &&& exists|idx: int|
        0 <= idx < spec_lhs_nodes(g).len() && #[trigger] spec_lhs_nodes(g)[idx] == pv[0] && (
        forall|idx2: int|
            0 <= idx2 < idx && (#[trigger] spec_lhs_nodes(g)[idx2]).1 == cmd.precondition@
                ==> crate::graph::unreachable_feature(
                g,
                spec_lhs_nodes(g)[idx2],
                cmd.stays_disabled@,
            ))
}

/// Whether `pv`, rendered as `s`, witnesses a Never-Implies violation.
pub open spec fn violation_witness(
    cmd: NeverImpliesCmd,
    meta: Metadata,
    pv: Seq<(Seq<char>, Seq<char>)>,
    s: Seq<char>,
) -> bool {
    &&& violating_path(cmd, meta, pv)
    &&& (forall|k: int| 0 <= k < pv.len() ==> renderable(meta, (#[trigger] pv[k]).0))
    &&& s == spec_render_path(
        meta,
        pv,
        crate::text::unescape_delim(cmd.path_delimiter@),
        cmd.show_version,
        cmd.show_source,
    )
}

/// Whether some path witnesses a violation rendered as `s`.
pub open spec fn some_violation(cmd: NeverImpliesCmd, meta: Metadata, s: Seq<char>) -> bool {
    exists|pv: Seq<(Seq<char>, Seq<char>)>| violation_witness(cmd, meta, pv, s)
}

/// Whether the path the scan stops at runs into a vertex whose id reads
/// `id` but names no package: the one way the check can fail after a clean
/// build (a shortest path ending at an unresolved-dependency placeholder).
pub open spec fn some_unrenderable_violation(
    cmd: NeverImpliesCmd,
    meta: Metadata,
    id: Seq<char>,
) -> bool {
    exists|pv: Seq<(Seq<char>, Seq<char>)>, k: int|
        violating_path(cmd, meta, pv) && 0 <= k < pv.len() && (#[trigger] pv[k]).0 == id
}

/// What [`NeverImpliesCmd::run`] promises of its result.
pub open spec fn never_implies_post(
    cmd: NeverImpliesCmd,
    meta: Metadata,
    r: Result<Option<String>, MetadataError>,
) -> bool {
    match r {
        Err(e) => match e {
            MetadataError::UnknownPackageId(id) => no_build_error(meta) && find_package(
                meta.packages@,
                id@,
            ) is None && some_unrenderable_violation(cmd, meta, id@),
            MetadataError::NoPackagesFound => false,
            _ => !no_build_error(meta),
        },
        Ok(opt) => {
            &&& no_build_error(meta)
            &&& match opt {
                Some(s) => some_violation(cmd, meta, s@),
                None => forall|idx: int|
                    0 <= idx < spec_lhs_nodes(spec_build_graph(meta)).len() && (
                    #[trigger] spec_lhs_nodes(spec_build_graph(meta))[idx]).1 == cmd.precondition@
                        ==> crate::graph::unreachable_feature(
                        spec_build_graph(meta),
                        spec_lhs_nodes(spec_build_graph(meta))[idx],
                        cmd.stays_disabled@,
                    ),
            }
        },
    }
}

/// Checks that no feature named `precondition` transitively implies a
/// feature named `stays_disabled`, walking the full implication graph.
pub struct NeverImpliesCmd {
    /// Where and how the snapshot was loaded.
    pub cargo_args: TreeArgs,
    /// The left side of the feature implication.
    pub precondition: String,
    /// The right side: if `precondition` is enabled, this stays disabled.
    pub stays_disabled: String,
    /// Whether to show the source location of crates in the output.
    pub show_source: bool,
    /// Whether to show the version of the crates in the output.
    pub show_version: bool,
    /// Delimiter for rendering dependency paths; `\n` and `\t` pairs are
    /// interpreted.
    pub path_delimiter: String,
}

impl NeverImpliesCmd {
    /// Builds the implication graph and searches, from every vertex with
    /// outgoing edges whose feature is `precondition`, for a shortest path
    /// to a `stays_disabled` vertex. The first violation found is rendered
    /// and returned; `Ok(None)` means no vertex implies the feature.
    pub fn run(&self, meta: &Metadata) -> (r: Result<Option<String>, MetadataError>)
        ensures
            never_implies_post(*self, *meta, r),
    {
        let ghost cmd = *self;
        let ghost g = spec_build_graph(*meta);
        let dag = match build_feature_dag(meta) {
            Ok(dag) => dag,
            Err(e) => {
                proof {
                    assert(!no_build_error(*meta));
                }
                return Err(e);
            },
        };
        let delim = crate::text::unescape_delimiter(self.path_delimiter.as_str());
        let lhs = dag.lhs_nodes();
        let nl = lhs.len();
        let mut i: usize = 0;
        while i < nl
            invariant
                dag.wf(),
                dag@ == g,
                g == spec_build_graph(*meta),
                no_build_error(*meta),
                cmd == *self,
                delim@ == crate::text::unescape_delim(self.path_delimiter@),
                nl == lhs@.len(),
                0 <= i <= nl,
                lhs@.map_values(|v: CrateAndFeature| v@) == spec_lhs_nodes(g),
                forall|idx: int|
                    0 <= idx < i && (#[trigger] spec_lhs_nodes(g)[idx]).1 == self.precondition@
                        ==> crate::graph::unreachable_feature(
                        g,
                        spec_lhs_nodes(g)[idx],
                        self.stays_disabled@,
                    ),
            decreases nl - i,
        {
            proof {
                assert(lhs@[i as int]@ == spec_lhs_nodes(g)[i as int]);
            }
            if lhs[i].1.eq(&self.precondition) {
                match dag.reachable_predicate(&lhs[i], &self.stays_disabled) {
                    None => {},
                    Some(path) => {
                        proof {
                            // This is the first offending vertex: every
                            // earlier precondition vertex was found clean.
                            let pv = path@.map_values(|x: CrateAndFeature| x@);
                            assert(spec_lhs_nodes(g)[i as int] == pv[0]);
                            assert(violating_path(cmd, *meta, pv));
                        }
                        let rendered = match render_path(
                            meta,
                            &path,
                            &delim,
                            self.show_version,
                            self.show_source,
                        ) {
                            Ok(rendered) => rendered,
                            Err(e) => {
                                proof {
                                    let pv = path@.map_values(|x: CrateAndFeature| x@);
                                    let idv = match &e {
                                        MetadataError::UnknownPackageId(s) => s@,
                                        _ => Seq::<char>::empty(),
                                    };
                                    let m = choose|m: int|
                                        0 <= m < path@.len() && ((#[trigger] path@[m])@).0 == idv;
                                    assert(pv[m].0 == idv);
                                    assert(some_unrenderable_violation(cmd, *meta, idv));
                                }
                                return Err(e);
                            },
                        };
                        proof {
                            let pv = path@.map_values(|x: CrateAndFeature| x@);
                            assert(violation_witness(cmd, *meta, pv, rendered@));
                        }
                        return Ok(Some(rendered));
                    },
                }
            }
            i += 1;
        }
        Ok(None)
    }
}


/// The sub-commands of the lint command.
pub enum SubCommand {
    /// Check whether features are properly propagated.
    PropagateFeature(PropagateFeatureCmd),
    /// A specific feature never enables a specific other feature, directly.
    NeverEnables(NeverEnablesCmd),
    /// A specific feature never enables a specific other feature,
    /// transitively.
    NeverImplies(NeverImpliesCmd),
}

/// What one lint run returns, by sub-command.
pub enum LintOutcome {
    /// The report of a Propagate-Feature run.
    PropagateFeature(Result<PropagateReport, MetadataError>),
    /// The offenders a Never-Enables run found.
    NeverEnables(Vec<Finding>),
    /// The rendered violation path a Never-Implies run found, if any.
    NeverImplies(Result<Option<String>, MetadataError>),
}

/// Lint feature usage by analyzing the metadata snapshot.
pub struct LintCmd {
    /// Which check to run.
    pub subcommand: SubCommand,
}

/// What [`LintCmd::run`] promises: the outcome variant matches the
/// sub-command, and carries that sub-command's guarantees.
pub open spec fn lint_post(cmd: LintCmd, meta: Metadata, r: LintOutcome) -> bool {
    match cmd.subcommand {
        SubCommand::PropagateFeature(c) => r matches LintOutcome::PropagateFeature(x)
            && propagate_post(c, meta, x),
        SubCommand::NeverEnables(c) => r matches LintOutcome::NeverEnables(x)
            && never_enables_post(c, meta, x@),
        SubCommand::NeverImplies(c) => r matches LintOutcome::NeverImplies(x)
            && never_implies_post(c, meta, x),
    }
}

impl LintCmd {
    /// Runs the selected check on the snapshot.
    pub fn run(&self, meta: &Metadata) -> (r: LintOutcome)
        requires
            meta.wf(),
        ensures
            lint_post(*self, *meta, r),
    {
        match &self.subcommand {
            SubCommand::PropagateFeature(c) => LintOutcome::PropagateFeature(c.run(meta)),
            SubCommand::NeverEnables(c) => LintOutcome::NeverEnables(c.run(meta)),
            SubCommand::NeverImplies(c) => LintOutcome::NeverImplies(c.run(meta)),
        }
    }
}

} // verus!
