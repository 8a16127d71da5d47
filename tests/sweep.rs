use cargo_sweep::cleaner::{after_clean_tool, after_removal, begin_clean, CleanAction, CleanResult, ToolReport};
use cargo_sweep::deps::{clean_dependencies, count_removed, pruning_wanted, removal_plan, RemovalPlan};
use cargo_sweep::scan::UnusedDependency;
use cargo_sweep::summary::{settle, summarize, summary_lines, Summary, SummaryLine};

fn finished(a: CleanAction) -> CleanResult {
    match a {
        CleanAction::Finish(r) => r,
        _ => panic!("expected a finished outcome"),
    }
}

/// Runs the clean steps with a simulated world: the tool's report and the
/// result of a deletion.
fn run(path: &str, dry_run: bool, before: u64, tool: ToolReport, removal: Result<(), String>) -> Result<CleanResult, String> {
    match begin_clean(path.to_string(), dry_run, before) {
        CleanAction::Finish(r) => Ok(r),
        CleanAction::RunCleanTool => match after_clean_tool(path.to_string(), before, tool) {
            CleanAction::Finish(r) => Ok(r),
            CleanAction::RemoveDirectory => after_removal(path.to_string(), before, removal),
            CleanAction::RunCleanTool => panic!("clean tool asked twice"),
        },
        CleanAction::RemoveDirectory => panic!("deletion before the clean tool"),
    }
}

#[test]
fn dry_run_reports_size_and_acts_not() {
    let r = finished(begin_clean("p".to_string(), true, 4096));
    assert!(r.success);
    assert_eq!(r.freed_bytes, 4096);
    assert_eq!(r.path, "p");
    assert!(matches!(begin_clean("p".to_string(), false, 4096), CleanAction::RunCleanTool));
}

#[test]
fn tool_success_frees_the_drop() {
    let r = finished(after_clean_tool("p".to_string(), 1000, ToolReport::Succeeded { after_bytes: 300 }));
    assert_eq!(r.freed_bytes, 700);
    let r = finished(after_clean_tool("p".to_string(), 100, ToolReport::Succeeded { after_bytes: 300 }));
    assert_eq!(r.freed_bytes, 0);
}

#[test]
fn fallback_deletes_and_reports_all() {
    assert!(matches!(
        after_clean_tool("p".to_string(), 5000, ToolReport::Failed { dir_exists: true }),
        CleanAction::RemoveDirectory
    ));
    let r = run("p", false, 5000, ToolReport::Failed { dir_exists: true }, Ok(())).unwrap();
    assert!(r.success);
    assert_eq!(r.freed_bytes, 5000);
    let r = run("p", false, 0, ToolReport::Failed { dir_exists: false }, Ok(())).unwrap();
    assert_eq!(r.freed_bytes, 0);
    let e = run("p", false, 5000, ToolReport::Failed { dir_exists: true }, Err("denied".to_string()));
    assert_eq!(e.unwrap_err(), "denied");
}

#[test]
fn cleaning_a_clean_project_twice() {
    for tool in [ToolReport::Succeeded { after_bytes: 0 }, ToolReport::Failed { dir_exists: false }] {
        for _ in 0..2 {
            let r = run("p", false, 0, tool, Ok(())).unwrap();
            assert!(r.success);
            assert_eq!(r.freed_bytes, 0);
        }
    }
}

#[test]
fn one_failing_project_does_not_stop_the_batch() {
    let mut results = Vec::new();
    for (i, path) in ["a", "b", "c", "d"].iter().enumerate() {
        let removal = if i == 2 { Err("cannot delete".to_string()) } else { Ok(()) };
        let outcome = run(path, false, 10, ToolReport::Failed { dir_exists: true }, removal);
        results.push(settle(path.to_string(), outcome));
    }
    let s = summarize(results);
    assert_eq!(s.total_projects, 4);
    assert_eq!(s.failed, 1);
    assert_eq!(s.cleaned, 3);
    assert_eq!(s.total_freed_bytes, 30);
    assert_eq!(s.results[2].path, "c");
    assert_eq!(s.results[2].error.as_deref(), Some("cannot delete"));
}

#[test]
fn three_projects_end_to_end() {
    let sizes = [0u64, 10485760, 0];
    let mut results = Vec::new();
    for (i, before) in sizes.iter().enumerate() {
        let path = format!("project{}", i);
        let outcome = run(&path, false, *before, ToolReport::Succeeded { after_bytes: 0 }, Ok(()));
        results.push(settle(path, outcome));
    }
    let s = summarize(results);
    assert_eq!(s.total_projects, 3);
    assert_eq!(s.cleaned, 3);
    assert_eq!(s.failed, 0);
    assert_eq!(s.total_freed_bytes, 10485760);
    assert_eq!(s.results[1].path, "project1");
}

#[test]
fn summary_records_incrementally() {
    let mut s = Summary::new();
    s.record(CleanResult::cleaned("a".to_string(), u64::MAX));
    s.record(CleanResult::cleaned("b".to_string(), 5));
    s.record(CleanResult::failed("c".to_string(), "boom".to_string()));
    assert_eq!(s.total_projects, 3);
    assert_eq!(s.cleaned, 2);
    assert_eq!(s.failed, 1);
    assert_eq!(s.total_freed_bytes, u64::MAX);
}

#[test]
fn pruning_decisions() {
    assert_eq!(removal_plan(true, 3, true), RemovalPlan::Skip);
    assert_eq!(removal_plan(false, 0, false), RemovalPlan::Skip);
    assert_eq!(removal_plan(false, 2, false), RemovalPlan::MissingManifest);
    assert_eq!(removal_plan(false, 2, true), RemovalPlan::RemoveEach);
    assert_eq!(count_removed(&vec![true, false, true]), 2);
    assert_eq!(count_removed(&vec![]), 0);
    assert!(pruning_wanted(true, 1));
    assert!(!pruning_wanted(true, 0));
    assert!(!pruning_wanted(false, 3));
}

#[test]
fn dependency_outcomes() {
    let deps = vec![
        UnusedDependency { name: "a".to_string(), location: "[dependencies]".to_string() },
        UnusedDependency { name: "b".to_string(), location: "[dependencies]".to_string() },
    ];
    let r = clean_dependencies("p".to_string(), deps.clone(), true, Ok(1));
    assert!(r.success);
    assert_eq!(r.removed_count, 1);
    assert_eq!(r.unused_deps.len(), 2);
    let r = clean_dependencies("p".to_string(), deps.clone(), true, Err("no manifest".to_string()));
    assert_eq!(r.removed_count, 0);
    assert!(r.error.is_none());
    let r = clean_dependencies("p".to_string(), deps, false, Ok(2));
    assert_eq!(r.removed_count, 0);
}

#[test]
fn closing_report_lines() {
    let s = summarize(vec![CleanResult::cleaned("a".to_string(), 0)]);
    assert_eq!(summary_lines(&s), vec![SummaryLine::Cleaned(1), SummaryLine::NothingFreed, SummaryLine::AllDone]);
    let s = summarize(vec![
        CleanResult::cleaned("a".to_string(), 2048),
        CleanResult::failed("b".to_string(), "x".to_string()),
    ]);
    assert_eq!(summary_lines(&s), vec![SummaryLine::Cleaned(1), SummaryLine::Freed(2048), SummaryLine::Failed(1)]);
}
