//! Cleaning one project's build output: measure, run the build tool's clean
//! command, fall back to deleting the directory, and report what was freed.
//!
//! The steps are decisions on what was observed; the caller performs each
//! action and hands back what came of it.

use vstd::prelude::*;

verus! {

/// What cleaning one project came to.
#[derive(Debug, Clone)]
pub struct CleanResult {
    pub path: String,
    pub success: bool,
    pub freed_bytes: u64,
    pub error: Option<String>,
}

impl CleanResult {
    /// A project that was cleaned, with the bytes freed.
    pub fn cleaned(path: String, freed_bytes: u64) -> (r: CleanResult)
        ensures
            r.path@ == path@,
            r.success,
            r.freed_bytes == freed_bytes,
            r.error is None,
    {
        CleanResult { path, success: true, freed_bytes, error: None }
    }

    /// A project whose cleaning failed, with the reason; nothing counts as
    /// freed.
    pub fn failed(path: String, message: String) -> (r: CleanResult)
        ensures
            r.path@ == path@,
            !r.success,
            r.freed_bytes == 0,
            (r.error matches Some(e) && e@ == message@),
    {
        CleanResult { path, success: false, freed_bytes: 0, error: Some(message) }
    }
}

/// The next thing to do for a project.
pub enum CleanAction {
    /// Run the build tool's clean command in the project's directory.
    RunCleanTool,
    /// Delete the build-output directory, with all it holds.
    RemoveDirectory,
    /// Done: this is the outcome.
    Finish(CleanResult),
}

/// What came of the build tool's clean command.
#[derive(Debug, Clone, Copy, PartialEq, Eq, Structural)]
pub enum ToolReport {
    /// It exited successfully; the build output now measures `after_bytes`.
    Succeeded { after_bytes: u64 },
    /// It failed or could not be started; says whether the build-output
    /// directory is still there.
    Failed { dir_exists: bool },
}

/// `a` finishes the project at `path` successfully with `freed` bytes.
pub open spec fn finishes_with(a: CleanAction, path: Seq<char>, freed: nat) -> bool {
    match a {
        CleanAction::Finish(res) => res.success && res.freed_bytes == freed && res.path@ == path
            && res.error is None,
        _ => false,
    }
}

/// What the tool's report leaves freed, or `None` where the directory must
/// still be deleted by hand.
pub open spec fn tool_outcome(before: nat, tool: ToolReport) -> Option<nat> {
    match tool {
        ToolReport::Succeeded { after_bytes } => Some(
            if before >= after_bytes {
                (before - after_bytes) as nat
            } else {
                0
            },
        ),
        ToolReport::Failed { dir_exists } => if dir_exists {
            None
        } else {
            Some(0)
        },
    }
}

/// The first step, once the build output measures `before` bytes (0 where it
/// is absent or cannot be measured). A dry run ends here, reporting what
/// could be freed and touching nothing; otherwise the clean command runs.
pub fn begin_clean(path: String, dry_run: bool, before: u64) -> (r: CleanAction)
    ensures
        dry_run ==> finishes_with(r, path@, before as nat),
        !dry_run ==> r is RunCleanTool,
{
    if dry_run {
        CleanAction::Finish(CleanResult::cleaned(path, before))
    } else {
        CleanAction::RunCleanTool
    }
}

/// The step after the clean command. Where it succeeded, what it freed is
/// the drop in size, never negative. Where it failed, the directory is
/// deleted by hand if it is there; if it is not, nothing was freed.
pub fn after_clean_tool(path: String, before: u64, tool: ToolReport) -> (r: CleanAction)
    ensures
        match tool_outcome(before as nat, tool) {
            Some(freed) => finishes_with(r, path@, freed),
            None => r is RemoveDirectory,
        },
{
    match tool {
        ToolReport::Succeeded { after_bytes } => {
            CleanAction::Finish(CleanResult::cleaned(path, before.saturating_sub(after_bytes)))
        },
        ToolReport::Failed { dir_exists } => {
            if dir_exists {
                CleanAction::RemoveDirectory
            } else {
                CleanAction::Finish(CleanResult::cleaned(path, 0))
            }
        },
    }
}

/// The outcome of deleting the directory by hand: all that it held is freed;
/// a failure to delete is the project's error.
pub fn after_removal(path: String, before: u64, removal: Result<(), String>) -> (r: Result<
    CleanResult,
    String,
>)
    ensures
        removal is Ok ==> (r matches Ok(res) && res.success && res.freed_bytes == before
            && res.path@ == path@ && res.error is None),
        removal matches Err(e) ==> (r matches Err(m) && m@ == e@),
{
    match removal {
        Ok(()) => Ok(CleanResult::cleaned(path, before)),
        Err(e) => Err(e),
    }
}

/// Cleaning a project that has no build output succeeds and frees nothing,
/// whatever the clean command does, so cleaning it again gives the same.
pub proof fn lemma_clean_of_clean_project(first: ToolReport, second: ToolReport)
    requires
        first == (ToolReport::Succeeded { after_bytes: 0 }) || first == (ToolReport::Failed {
            dir_exists: false,
        }),
        second == (ToolReport::Succeeded { after_bytes: 0 }) || second == (ToolReport::Failed {
            dir_exists: false,
        }),
    ensures
        tool_outcome(0, first) == Some(0nat),
        tool_outcome(0, second) == Some(0nat),
{
}

/// When the clean command fails, the directory is deleted if it is there and
/// all it held counts as freed; if it never was, nothing does.
pub proof fn lemma_fallback_frees_all(before: nat, dir_exists: bool)
    ensures
        dir_exists ==> tool_outcome(before, ToolReport::Failed { dir_exists }) is None,
        !dir_exists ==> tool_outcome(before, ToolReport::Failed { dir_exists }) == Some(0nat),
{
}

} // verus!
