//! Lint feature-flag propagation across a graph of interdependent packages.
//!
//! Given a snapshot of package metadata (names, versions, declared
//! dependencies, and each package's feature-to-implication mapping), this
//! library builds a directed graph of "enabling this feature activates that
//! feature" relationships, answers reachability queries over that graph, and
//! detects missing feature forwarding from a package to its dependencies.
//! A format-preserving manifest editor inserts missing forwarding
//! declarations without disturbing unrelated file content.

use vstd::prelude::*;

pub mod autofix;
pub mod builder;
pub mod cmd;
pub mod graph;
pub mod lint;
pub mod model;
pub mod resolve;
pub mod text;

verus! {

/// A failure that indicates an inconsistent metadata snapshot, not a lint
/// finding: malformed implication specs, references to unknown packages or
/// features, and an empty package selection.
#[derive(Debug)]
pub enum MetadataError {
    /// An implication spec string matched none of the recognized forms.
    MalformedImplication(String),
    /// A bare-token implication named a feature the package does not declare.
    UnknownOwnFeature(String),
    /// A `dep:`/`name/feature` implication named a dependency the package
    /// does not declare.
    UnknownDependency(String),
    /// A package id that occurs in a graph vertex has no package in the
    /// snapshot.
    UnknownPackageId(String),
    /// A package-name filter matched no package of the snapshot.
    NoPackagesFound,
}

} // verus!
