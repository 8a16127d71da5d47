//! Pruning unused dependencies: when to remove them, and what is reported.

use vstd::prelude::*;
use crate::scan::UnusedDependency;

verus! {

/// The dependency findings of one project.
#[derive(Debug)]
pub struct DependencyCleanResult {
    pub path: String,
    pub success: bool,
    pub unused_deps: Vec<UnusedDependency>,
    pub removed_count: usize,
    pub error: Option<String>,
}

impl DependencyCleanResult {
    /// No more dependencies are counted as removed than were found.
    pub open spec fn wf(&self) -> bool {
        self.removed_count <= self.unused_deps@.len()
    }
}

/// What the pruner does with a list of unused dependencies.
#[derive(Debug, Clone, Copy, PartialEq, Eq, Structural)]
pub enum RemovalPlan {
    /// Nothing to do: a dry run, or nothing to remove. No side effect.
    Skip,
    /// The project has no manifest to edit: an error, before any removal.
    MissingManifest,
    /// Run the removal command once for each dependency, in order.
    RemoveEach,
}

/// Decides what the pruner does; a dry run or an empty list comes first,
/// before the manifest is even looked for.
pub fn removal_plan(dry_run: bool, dep_count: usize, manifest_exists: bool) -> (r: RemovalPlan)
    ensures
        (dry_run || dep_count == 0) <==> r == RemovalPlan::Skip,
        (!dry_run && dep_count > 0 && !manifest_exists) <==> r == RemovalPlan::MissingManifest,
        (!dry_run && dep_count > 0 && manifest_exists) <==> r == RemovalPlan::RemoveEach,
{
    if dry_run || dep_count == 0 {
        RemovalPlan::Skip
    } else if !manifest_exists {
        RemovalPlan::MissingManifest
    } else {
        RemovalPlan::RemoveEach
    }
}

/// How many of the removal commands succeeded.
pub open spec fn successes(statuses: Seq<bool>) -> nat
    decreases statuses.len(),
{
    if statuses.len() == 0 {
        0
    } else {
        successes(statuses.drop_last()) + if statuses.last() {
            1nat
        } else {
            0nat
        }
    }
}

/// Counts the dependencies removed: one for each removal command that
/// succeeded; a failed one is skipped, not retried.
pub fn count_removed(statuses: &Vec<bool>) -> (r: usize)
    ensures
        r == successes(statuses@),
        r <= statuses@.len(),
{
    let mut count: usize = 0;
    let mut i: usize = 0;
    while i < statuses.len()
        invariant
            i <= statuses@.len(),
            count == successes(statuses@.subrange(0, i as int)),
            count <= i,
        decreases statuses@.len() - i,
    {
        assert(statuses@.subrange(0, i + 1).drop_last() =~= statuses@.subrange(0, i as int));
        if statuses[i] {
            count = count + 1;
        }
        i = i + 1;
    }
    assert(statuses@.subrange(0, i as int) =~= statuses@);
    count
}

/// Whether the pruner is asked at all: removal was requested and something
/// was found.
pub fn pruning_wanted(remove: bool, found: usize) -> (r: bool)
    ensures
        r == (remove && found > 0),
{
    remove && found > 0
}

/// The count a pruner's answer stands for: its count, or none where it failed.
pub open spec fn removed_from(remove: bool, found: nat, removal: Result<usize, String>) -> nat {
    if remove && found > 0 {
        match removal {
            Ok(n) => n as nat,
            Err(_) => 0,
        }
    } else {
        0
    }
}

/// Records the dependency findings of the project at `path`. `removal` is
/// what the pruner answered, where it was asked (see `pruning_wanted`); its
/// failure is absorbed as nothing removed.
pub fn clean_dependencies(
    path: String,
    unused_deps: Vec<UnusedDependency>,
    remove: bool,
    removal: Result<usize, String>,
) -> (r: DependencyCleanResult)
    requires
        removal matches Ok(n) ==> n <= unused_deps@.len(),
    ensures
        r.wf(),
        r.path@ == path@,
        r.success,
        r.error is None,
        r.unused_deps@ == unused_deps@,
        r.removed_count == removed_from(remove, unused_deps@.len(), removal),
{
    let removed_count = if pruning_wanted(remove, unused_deps.len()) {
        match removal {
            Ok(n) => n,
            Err(_) => 0,
        }
    } else {
        0
    };
    DependencyCleanResult { path, success: true, unused_deps, removed_count, error: None }
}

} // verus!
