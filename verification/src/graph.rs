//! The resolved dependency graph as the tree builder reads it.

use vstd::prelude::*;
use vstd::string::StringExecFns;

use crate::dependency::DependencyType;

verus! {

/// The kind tag of a resolved dependency edge.
#[derive(Debug, Clone, Copy, PartialEq, Eq, Hash, Structural)]
pub enum DependencyKind {
    Normal,
    Development,
    Build,
    Unknown,
}

/// What a build target of a package produces, as far as the tree cares.
#[derive(Debug, Clone, Copy, PartialEq, Eq, Hash, Structural)]
pub enum TargetKind {
    ProcMacro,
    Other,
}

/// One package of the graph.
#[derive(Debug, Clone)]
pub struct PackageRecord {
    /// Identity of the package; edges and the member list refer to it.
    pub id: u64,
    pub name: String,
    pub version: String,
    /// Whether the package comes from a local path rather than a registry.
    pub is_local: bool,
    /// Directory that holds the package's manifest.
    pub manifest_dir: Option<String>,
    /// The kinds of all build targets of the package.
    pub target_kinds: Vec<TargetKind>,
}

/// One outgoing edge of a resolved package.
#[derive(Debug, Clone)]
pub struct ResolveEdge {
    /// Identity of the package that is depended on.
    pub pkg: u64,
    /// The kind tags under which it is depended on.
    pub kinds: Vec<DependencyKind>,
}

/// The resolved edges of one package.
#[derive(Debug, Clone)]
pub struct ResolveNode {
    pub id: u64,
    pub deps: Vec<ResolveEdge>,
}

/// A snapshot of the dependency graph of a workspace.
#[derive(Debug, Clone)]
pub struct DependencyGraph {
    /// Name of the root package, when the workspace has one.
    pub root_name: Option<String>,
    pub packages: Vec<PackageRecord>,
    /// Identities of the packages that belong to the workspace.
    pub workspace_members: Vec<u64>,
    /// The resolved edges, absent when resolution did not take place.
    pub resolve: Option<Vec<ResolveNode>>,
}

/// Why no tree could be produced.
#[derive(Debug, Clone, Copy, PartialEq, Eq, Structural)]
pub enum GraphError {
    /// The provider of the graph could not be run or understood.
    ProviderFailed,
    /// The graph carries no resolved edges.
    ResolveMissing,
}

impl GraphError {
    /// The text that describes this error.
    pub open spec fn spec_message(self) -> Seq<char> {
        match self {
            GraphError::ProviderFailed => "failed to execute Cargo metadata"@,
            GraphError::ResolveMissing => "failed to resolve dependency graph"@,
        }
    }

    /// Returns the text that describes this error.
    pub fn message(&self) -> (r: String)
        ensures
            r@ == self.spec_message(),
    {
        match self {
            GraphError::ProviderFailed => String::from_str("failed to execute Cargo metadata"),
            GraphError::ResolveMissing => String::from_str("failed to resolve dependency graph"),
        }
    }
}

/// The tree kind that the first known tag of `kinds` at or after `from`
/// stands for, `None` when no tag there is known.
pub open spec fn first_known(kinds: Seq<DependencyKind>, from: int) -> Option<DependencyType>
    decreases kinds.len() - from,
{
    if from < 0 || from >= kinds.len() {
        None
    } else {
        match kinds[from] {
            DependencyKind::Normal => Some(DependencyType::Normal),
            DependencyKind::Development => Some(DependencyType::Dev),
            DependencyKind::Build => Some(DependencyType::Build),
            DependencyKind::Unknown => first_known(kinds, from + 1),
        }
    }
}

/// The kind under which an edge with the tags `kinds` enters the tree.
///
/// An edge without tags is a normal one. Otherwise the first known tag
/// decides, and an edge whose tags are all unknown contributes nothing.
pub open spec fn edge_type(kinds: Seq<DependencyKind>) -> Option<DependencyType> {
    if kinds.len() == 0 {
        Some(DependencyType::Normal)
    } else {
        first_known(kinds, 0)
    }
}

/// Classifies an edge by its kind tags.
pub fn classify(kinds: &Vec<DependencyKind>) -> (r: Option<DependencyType>)
    ensures
        r == edge_type(kinds@),
{
    if kinds.len() == 0 {
        return Some(DependencyType::Normal);
    }
    let mut i: usize = 0;
    while i < kinds.len()
        invariant
            i <= kinds.len(),
            first_known(kinds@, i as int) == first_known(kinds@, 0),
        decreases kinds.len() - i,
    {
        match kinds[i] {
            DependencyKind::Normal => {
                return Some(DependencyType::Normal);
            },
            DependencyKind::Development => {
                return Some(DependencyType::Dev);
            },
            DependencyKind::Build => {
                return Some(DependencyType::Build);
            },
            DependencyKind::Unknown => {},
        }
        i += 1;
    }
    None
}

/// Returns whether one of the target kinds is a proc-macro.
pub fn has_proc_macro(kinds: &Vec<TargetKind>) -> (r: bool)
    ensures
        r == kinds@.contains(TargetKind::ProcMacro),
{
    let mut i: usize = 0;
    while i < kinds.len()
        invariant
            i <= kinds.len(),
            forall|j: int| 0 <= j < i ==> kinds@[j] != TargetKind::ProcMacro,
        decreases kinds.len() - i,
    {
        if kinds[i] == TargetKind::ProcMacro {
            return true;
        }
        i += 1;
    }
    false
}

} // verus!
