//! The tally of a whole sweep: how many projects were cleaned, how many
//! failed, and how much space was freed.

use vstd::prelude::*;
use crate::cleaner::CleanResult;
use crate::size::cap_u64;

verus! {

/// How many results are successes.
pub open spec fn success_count(rs: Seq<CleanResult>) -> nat
    decreases rs.len(),
{
    if rs.len() == 0 {
        0
    } else {
        success_count(rs.drop_last()) + if rs.last().success {
            1nat
        } else {
            0nat
        }
    }
}

/// The bytes freed by the successes.
pub open spec fn freed_total(rs: Seq<CleanResult>) -> nat
    decreases rs.len(),
{
    if rs.len() == 0 {
        0
    } else {
        freed_total(rs.drop_last()) + if rs.last().success {
            rs.last().freed_bytes as nat
        } else {
            0nat
        }
    }
}

/// The outcome of a sweep, one result per project in discovery order.
#[derive(Debug)]
pub struct Summary {
    pub total_projects: usize,
    pub cleaned: usize,
    pub failed: usize,
    pub total_freed_bytes: u64,
    pub results: Vec<CleanResult>,
}

impl Summary {
    /// The counts agree with the results; the total freed is their sum,
    /// capped at the largest u64.
    pub open spec fn wf(&self) -> bool {
        &&& self.total_projects == self.results@.len()
        &&& self.cleaned == success_count(self.results@)
        &&& self.cleaned + self.failed == self.total_projects
        &&& self.total_freed_bytes == cap_u64(freed_total(self.results@))
    }

    /// The tally of no project.
    pub fn new() -> (r: Summary)
        ensures
            r.wf(),
            r.results@.len() == 0,
    {
        Summary {
            total_projects: 0,
            cleaned: 0,
            failed: 0,
            total_freed_bytes: 0,
            results: Vec::new(),
        }
    }

    /// Adds the result of one more project.
    pub fn record(&mut self, result: CleanResult)
        requires
            old(self).wf(),
            old(self).results@.len() < usize::MAX,
        ensures
            final(self).wf(),
            final(self).results@ == old(self).results@.push(result),
    {
        let ghost rs = self.results@.push(result);
        assert(rs.drop_last() =~= self.results@);
        proof {
            lemma_success_count_bounded(self.results@);
        }
        if result.success {
            self.cleaned = self.cleaned + 1;
            self.total_freed_bytes = self.total_freed_bytes.saturating_add(result.freed_bytes);
        } else {
            self.failed = self.failed + 1;
        }
        self.total_projects = self.total_projects + 1;
        self.results.push(result);
    }
}

proof fn lemma_success_count_bounded(rs: Seq<CleanResult>)
    ensures
        success_count(rs) <= rs.len(),
    decreases rs.len(),
{
    if rs.len() > 0 {
        lemma_success_count_bounded(rs.drop_last());
    }
}

/// The result that stands for a project's outcome: the cleaner's result, or
/// a failure carrying its error. A failure stops nothing else.
pub fn settle(path: String, outcome: Result<CleanResult, String>) -> (r: CleanResult)
    ensures
        outcome matches Ok(res) ==> r == res,
        outcome matches Err(e) ==> !r.success && r.freed_bytes == 0 && r.path@ == path@ && (
        r.error matches Some(m) && m@ == e@),
{
    match outcome {
        Ok(res) => res,
        Err(e) => CleanResult::failed(path, e),
    }
}

/// Tallies the results of a sweep, keeping them in order.
pub fn summarize(results: Vec<CleanResult>) -> (r: Summary)
    ensures
        r.wf(),
        r.results@ == results@,
{
    let mut cleaned: usize = 0;
    let mut freed: u64 = 0;
    let mut i: usize = 0;
    while i < results.len()
        invariant
            i <= results@.len(),
            cleaned == success_count(results@.subrange(0, i as int)),
            cleaned <= i,
            freed == cap_u64(freed_total(results@.subrange(0, i as int))),
        decreases results@.len() - i,
    {
        assert(results@.subrange(0, i + 1).drop_last() =~= results@.subrange(0, i as int));
        if results[i].success {
            cleaned = cleaned + 1;
            freed = freed.saturating_add(results[i].freed_bytes);
        }
        i = i + 1;
    }
    assert(results@.subrange(0, i as int) =~= results@);
    let total = results.len();
    Summary { total_projects: total, cleaned, failed: total - cleaned, total_freed_bytes: freed, results }
}

/// One line of the closing report.
#[derive(Debug, Clone, Copy, PartialEq, Eq, Structural)]
pub enum SummaryLine {
    /// How many projects were cleaned.
    Cleaned(usize),
    /// How much was freed, where anything was.
    Freed(u64),
    /// Nothing was freed.
    NothingFreed,
    /// How many projects failed, where any did.
    Failed(usize),
    /// No project failed.
    AllDone,
}

/// The lines of the closing report: the count cleaned; the space freed, or
/// that none was; the count failed, or that all is done.
pub fn summary_lines(s: &Summary) -> (r: Vec<SummaryLine>)
    ensures
        r@ == seq![
            SummaryLine::Cleaned(s.cleaned),
            if s.total_freed_bytes > 0 {
                SummaryLine::Freed(s.total_freed_bytes)
            } else {
                SummaryLine::NothingFreed
            },
            if s.failed > 0 {
                SummaryLine::Failed(s.failed)
            } else {
                SummaryLine::AllDone
            },
        ],
{
    let mut lines: Vec<SummaryLine> = Vec::new();
    lines.push(SummaryLine::Cleaned(s.cleaned));
    if s.total_freed_bytes > 0 {
        lines.push(SummaryLine::Freed(s.total_freed_bytes));
    } else {
        lines.push(SummaryLine::NothingFreed);
    }
    if s.failed > 0 {
        lines.push(SummaryLine::Failed(s.failed));
    } else {
        lines.push(SummaryLine::AllDone);
    }
    assert(lines@ =~= seq![
        SummaryLine::Cleaned(s.cleaned),
        if s.total_freed_bytes > 0 {
            SummaryLine::Freed(s.total_freed_bytes)
        } else {
            SummaryLine::NothingFreed
        },
        if s.failed > 0 {
            SummaryLine::Failed(s.failed)
        } else {
            SummaryLine::AllDone
        },
    ]);
    lines
}

/// One failing project among N leaves the others counted: N - 1 cleaned,
/// 1 failed.
pub proof fn lemma_batch_isolation(s: Summary, k: int)
    requires
        s.wf(),
        0 <= k < s.results@.len(),
        !s.results@[k].success,
        forall|i: int| 0 <= i < s.results@.len() && i != k ==> (#[trigger] s.results@[i]).success,
    ensures
        s.failed == 1,
        s.cleaned == s.total_projects - 1,
{
    lemma_one_failure(s.results@, k);
}

proof fn lemma_one_failure(rs: Seq<CleanResult>, k: int)
    requires
        0 <= k < rs.len(),
        !rs[k].success,
        forall|i: int| 0 <= i < rs.len() && i != k ==> (#[trigger] rs[i]).success,
    ensures
        success_count(rs) == rs.len() - 1,
    decreases rs.len(),
{
    if k == rs.len() - 1 {
        lemma_all_succeed(rs.drop_last());
    } else {
        lemma_one_failure(rs.drop_last(), k);
    }
}

proof fn lemma_all_succeed(rs: Seq<CleanResult>)
    requires
        forall|i: int| 0 <= i < rs.len() ==> (#[trigger] rs[i]).success,
    ensures
        success_count(rs) == rs.len(),
    decreases rs.len(),
{
    if rs.len() > 0 {
        lemma_all_succeed(rs.drop_last());
    }
}

} // verus!
