//! The entries of the final critical-path report.
use crate::backend::{CriticalPathEntry, NodeData};
use crate::node_key::{NodeDuration, NodeKey};
use vstd::prelude::*;

verus! {

/// What a report entry describes.
#[derive(Debug, Clone, Copy, PartialEq, Eq, Structural)]
pub enum ReportKey {
    Node(NodeKey),
    /// The time spent computing the critical path itself.
    ComputeCriticalPath,
}

/// One entry of the report.
#[derive(Debug)]
pub struct ReportEntry {
    pub key: ReportKey,
    pub data: NodeData,
    pub potential_improvement: Option<u64>,
}

/// Whether a node of the critical path shows in the report: build keys only with an action
/// that ran, analyses, materializations and loads always, the other kinds never.
pub open spec fn is_reported(key: NodeKey, action: Option<u64>) -> bool {
    match key {
        NodeKey::BuildKey(_) => action is Some,
        NodeKey::AnalysisKey(_) | NodeKey::Materialization(_) | NodeKey::InterpreterResultsKey(_) => true,
        _ => false,
    }
}

/// The contents of an entry: key, action, duration, spans, potential improvement.
pub type EntryView = (ReportKey, Option<u64>, NodeDuration, Seq<u64>, Option<u64>);

pub open spec fn report_view(e: ReportEntry) -> EntryView {
    (e.key, e.data.action, e.data.duration, e.data.span_ids@, e.potential_improvement)
}

pub open spec fn report_views(s: Seq<ReportEntry>) -> Seq<EntryView>
    decreases s.len(),
{
    if s.len() == 0 {
        Seq::empty()
    } else {
        report_views(s.drop_last()).push(report_view(s.last()))
    }
}

/// The critical-path entries that show in the report, in order.
pub open spec fn reported_views(s: Seq<CriticalPathEntry>) -> Seq<EntryView>
    decreases s.len(),
{
    if s.len() == 0 {
        Seq::empty()
    } else {
        let e = s.last();
        if is_reported(e.key, e.data.action) {
            reported_views(s.drop_last()).push(
                (
                    ReportKey::Node(e.key),
                    e.data.action,
                    e.data.duration,
                    e.data.span_ids@,
                    e.potential_improvement,
                ),
            )
        } else {
            reported_views(s.drop_last())
        }
    }
}

/// The entry for the time spent computing the critical path.
pub open spec fn compute_entry(elapsed: u64) -> EntryView {
    (
        ReportKey::ComputeCriticalPath,
        None,
        NodeDuration { user: 0, total: elapsed },
        Seq::empty(),
        Some(elapsed),
    )
}

/// No reported entry is of a kind left out of the report, nor a build key without an action.
pub proof fn lemma_summary_filter(s: Seq<CriticalPathEntry>)
    ensures
        forall|i: int|
            0 <= i < reported_views(s).len() ==> match (#[trigger] reported_views(s)[i]).0 {
                ReportKey::Node(k) => is_reported(k, reported_views(s)[i].1),
                ReportKey::ComputeCriticalPath => false,
            },
        reported_views(s).len() <= s.len(),
    decreases s.len(),
{
    if s.len() > 0 {
        let r = s.drop_last();
        lemma_summary_filter(r);
        assert forall|i: int| 0 <= i < reported_views(s).len() implies match (
        #[trigger] reported_views(s)[i]).0 {
            ReportKey::Node(k) => is_reported(k, reported_views(s)[i].1),
            ReportKey::ComputeCriticalPath => false,
        } by {
            if i < reported_views(r).len() {
                assert(reported_views(s)[i] == reported_views(r)[i]);
            }
        }
    }
}

fn reported(key: NodeKey, action: Option<u64>) -> (r: bool)
    ensures
        r == is_reported(key, action),
{
    match key {
        NodeKey::BuildKey(_) => action.is_some(),
        NodeKey::AnalysisKey(_) | NodeKey::Materialization(_) | NodeKey::InterpreterResultsKey(_) => true,
        _ => false,
    }
}

/// The report of a critical path: the entries that show, in order, then one for the time
/// spent computing the path (microseconds), which counts as its total duration and its
/// potential improvement.
pub fn report_entries(critical_path: &Vec<CriticalPathEntry>, compute_elapsed: u64) -> (r: Vec<
    ReportEntry,
>)
    ensures
        report_views(r@) == reported_views(critical_path@).push(compute_entry(compute_elapsed)),
{
    let mut r: Vec<ReportEntry> = Vec::new();
    let mut i: usize = 0;
    while i < critical_path.len()
        invariant
            i <= critical_path@.len(),
            report_views(r@) == reported_views(critical_path@.subrange(0, i as int)),
        decreases critical_path@.len() - i,
    {
        assert(critical_path@.subrange(0, i + 1).drop_last() =~= critical_path@.subrange(
            0,
            i as int,
        ));
        let e = &critical_path[i];
        if reported(e.key, e.data.action) {
            let ghost before = r@;
            r.push(
                ReportEntry {
                    key: ReportKey::Node(e.key),
                    data: e.data.duplicate(),
                    potential_improvement: e.potential_improvement,
                },
            );
            assert(r@.drop_last() == before);
        }
        i = i + 1;
    }
    assert(critical_path@.subrange(0, critical_path@.len() as int) =~= critical_path@);
    let ghost before = r@;
    r.push(
        ReportEntry {
            key: ReportKey::ComputeCriticalPath,
            data: NodeData {
                action: None,
                duration: NodeDuration { user: 0, total: compute_elapsed },
                span_ids: Vec::new(),
            },
            potential_improvement: Some(compute_elapsed),
        },
    );
    assert(r@.drop_last() == before);
    r
}

} // verus!
