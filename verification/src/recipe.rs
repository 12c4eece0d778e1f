//! Declarative package recipes as read from manifest files: flat carriers
//! of identity, dependency lists and metadata.

use vstd::prelude::*;

use crate::package::DependencyType;

verus! {

/// A flat identifier: a name under a single namespace string.
#[derive(Debug)]
pub struct Id {
    pub name: String,
    pub namespace: String,
}

/// Dependency path lists of a manifest recipe, split by link time.
#[derive(Debug)]
pub struct Dependencies {
    pub build: Vec<String>,
    pub runtime: Vec<String>,
}

impl Dependencies {
    /// A recipe with no dependencies at all.
    pub fn empty() -> (r: Dependencies)
        ensures
            r.build@.len() == 0,
            r.runtime@.len() == 0,
    {
        Dependencies { build: Vec::new(), runtime: Vec::new() }
    }
}

/// Metadata carried by a manifest recipe.
#[derive(Debug)]
pub struct PackageMetadata;

/// One declared dependency: the identifier of the child and how it is
/// linked.
#[derive(Debug)]
pub struct PackageDependency {
    pub id: String,
    pub dependency_type: DependencyType,
}

} // verus!
