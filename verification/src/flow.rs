//! Interaction flow decisions: the creation wizard's step order, the back
//! command, and the state workflow's forward and backward moves. The loops
//! that prompt and print live outside; only the decisions are here.

use vstd::prelude::*;
use crate::text::ci_eq;
use crate::text::trim;

verus! {

/// Data collected for a new work item.
pub struct NewItemInput {
    pub title: String,
    pub state: String,
    pub assignee: Option<String>,
    pub labels: Vec<String>,
    pub description: Option<String>,
}

/// The steps of the creation wizard, in order.
#[derive(Clone, Copy, Debug, PartialEq, Eq, Structural)]
pub enum Step {
    Title,
    State,
    Assignee,
    Labels,
    CustomLabels,
    Description,
    Confirm,
}

impl Step {
    /// The step after this one, if any.
    pub fn next(self) -> (r: Option<Step>)
        ensures
            r == spec_next(self),
    {
        match self {
            Step::Title => Some(Step::State),
            Step::State => Some(Step::Assignee),
            Step::Assignee => Some(Step::Labels),
            Step::Labels => Some(Step::CustomLabels),
            Step::CustomLabels => Some(Step::Description),
            Step::Description => Some(Step::Confirm),
            Step::Confirm => None,
        }
    }

    /// The step before this one, if any.
    pub fn prev(self) -> (r: Option<Step>)
        ensures
            r == spec_prev(self),
    {
        match self {
            Step::Title => None,
            Step::State => Some(Step::Title),
            Step::Assignee => Some(Step::State),
            Step::Labels => Some(Step::Assignee),
            Step::CustomLabels => Some(Step::Labels),
            Step::Description => Some(Step::CustomLabels),
            Step::Confirm => Some(Step::Description),
        }
    }
}

pub open spec fn spec_next(s: Step) -> Option<Step> {
    match s {
        Step::Title => Some(Step::State),
        Step::State => Some(Step::Assignee),
        Step::Assignee => Some(Step::Labels),
        Step::Labels => Some(Step::CustomLabels),
        Step::CustomLabels => Some(Step::Description),
        Step::Description => Some(Step::Confirm),
        Step::Confirm => None,
    }
}

pub open spec fn spec_prev(s: Step) -> Option<Step> {
    match s {
        Step::Title => None,
        Step::State => Some(Step::Title),
        Step::Assignee => Some(Step::State),
        Step::Labels => Some(Step::Assignee),
        Step::CustomLabels => Some(Step::Labels),
        Step::Description => Some(Step::CustomLabels),
        Step::Confirm => Some(Step::Description),
    }
}

/// Moving forward then back returns to the same step, and so does moving
/// back then forward: the wizard's order is a straight line.
pub proof fn lemma_step_order(s: Step)
    ensures
        spec_next(s) matches Some(t) ==> spec_prev(t) == Some(s),
        spec_prev(s) matches Some(t) ==> spec_next(t) == Some(s),
{
}

/// Whether a prompt answer asks to go back: `<`, `back`, `b` or `..` after
/// trimming, ignoring ASCII case.
pub open spec fn spec_back_command(s: Seq<char>) -> bool {
    ||| ci_eq(trim(s), "<"@)
    ||| ci_eq(trim(s), "back"@)
    ||| ci_eq(trim(s), "b"@)
    ||| ci_eq(trim(s), ".."@)
}

/// Whether a prompt answer asks to go back.
pub fn is_back_command(input: &str) -> (r: bool)
    ensures
        r == spec_back_command(input@),
{
    let cs = crate::text::str_chars(input);
    let t = crate::text::trim_chars(&cs);
    let ts = crate::text::chars_string(&t);
    if crate::text::eq_ignore_case(ts.as_str(), "<") {
        return true;
    }
    if crate::text::eq_ignore_case(ts.as_str(), "back") {
        return true;
    }
    if crate::text::eq_ignore_case(ts.as_str(), "b") {
        return true;
    }
    crate::text::eq_ignore_case(ts.as_str(), "..")
}

/// The state after advancing along the workflow `TODO`, `IN_PROGRESS`,
/// `IN_REVIEW`, `DONE` (compared ignoring ASCII case): the next stage, none
/// from the final stage, and `IN_PROGRESS` from any unknown state.
pub open spec fn spec_workflow_next(s: Seq<char>) -> Option<Seq<char>> {
    if ci_eq(s, "TODO"@) {
        Some("IN_PROGRESS"@)
    } else if ci_eq(s, "IN_PROGRESS"@) {
        Some("IN_REVIEW"@)
    } else if ci_eq(s, "IN_REVIEW"@) {
        Some("DONE"@)
    } else if ci_eq(s, "DONE"@) {
        None
    } else {
        Some("IN_PROGRESS"@)
    }
}

/// The state after stepping the workflow backwards: the previous stage,
/// none from the initial stage, and `TODO` from any unknown state.
pub open spec fn spec_workflow_prev(s: Seq<char>) -> Option<Seq<char>> {
    if ci_eq(s, "TODO"@) {
        None
    } else if ci_eq(s, "IN_PROGRESS"@) {
        Some("TODO"@)
    } else if ci_eq(s, "IN_REVIEW"@) {
        Some("IN_PROGRESS"@)
    } else if ci_eq(s, "DONE"@) {
        Some("IN_REVIEW"@)
    } else {
        Some("TODO"@)
    }
}

/// The next workflow state, if the item is not already at the final one.
pub fn workflow_next(state: &str) -> (r: Option<String>)
    ensures
        match r {
            Some(s) => spec_workflow_next(state@) == Some(s@),
            None => spec_workflow_next(state@) is None,
        },
{
    if crate::text::eq_ignore_case(state, "TODO") {
        Some(String::from_str("IN_PROGRESS"))
    } else if crate::text::eq_ignore_case(state, "IN_PROGRESS") {
        Some(String::from_str("IN_REVIEW"))
    } else if crate::text::eq_ignore_case(state, "IN_REVIEW") {
        Some(String::from_str("DONE"))
    } else if crate::text::eq_ignore_case(state, "DONE") {
        None
    } else {
        Some(String::from_str("IN_PROGRESS"))
    }
}

/// The previous workflow state, if the item is not already at the first.
pub fn workflow_prev(state: &str) -> (r: Option<String>)
    ensures
        match r {
            Some(s) => spec_workflow_prev(state@) == Some(s@),
            None => spec_workflow_prev(state@) is None,
        },
{
    if crate::text::eq_ignore_case(state, "TODO") {
        None
    } else if crate::text::eq_ignore_case(state, "IN_PROGRESS") {
        Some(String::from_str("TODO"))
    } else if crate::text::eq_ignore_case(state, "IN_REVIEW") {
        Some(String::from_str("IN_PROGRESS"))
    } else if crate::text::eq_ignore_case(state, "DONE") {
        Some(String::from_str("IN_REVIEW"))
    } else {
        Some(String::from_str("TODO"))
    }
}

} // verus!
