//! What becomes of a formatted file.
use vstd::prelude::*;

verus! {

/// Whether formatting found something to change.
#[derive(Clone, Copy, PartialEq, Eq, Structural, Debug)]
pub enum FormattingStatus {
    Changed,
    Unchanged,
}

/// What is done with a formatted file.
#[derive(Clone, Copy, PartialEq, Eq, Structural, Debug)]
pub enum EmitAction {
    /// The formatted text replaces the text of the file.
    Write,
    /// The difference between the two texts is reported.
    ReportDiff,
    /// Nothing is done.
    Skip,
}

/// Decides what to do with a file whose text `source` was formatted into
/// `output`: outside check mode the result is always written; in check mode
/// a difference is reported, and a file that formatting leaves as it is
/// needs nothing.
pub fn emit_action(check: bool, output: &String, source: &String) -> (r: (EmitAction, FormattingStatus))
    ensures
        !check ==> r == (EmitAction::Write, FormattingStatus::Changed),
        check && output@ != source@ ==> r == (EmitAction::ReportDiff, FormattingStatus::Changed),
        check && output@ == source@ ==> r == (EmitAction::Skip, FormattingStatus::Unchanged),
{
    if !check {
        (EmitAction::Write, FormattingStatus::Changed)
    } else if *output != *source {
        (EmitAction::ReportDiff, FormattingStatus::Changed)
    } else {
        (EmitAction::Skip, FormattingStatus::Unchanged)
    }
}

} // verus!
