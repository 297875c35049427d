//! What a command does: the project after it, the ids it minted and what it
//! answers.

use crate::commands::command::{CommandError, Outcome, OutcomeView, Refusal};
use crate::model::project::ProjectView;
use vstd::prelude::*;

verus! {

/// What a command does to a project and a mint's counter, and its answer.
#[verifier::ext_equal]
pub struct Step {
    pub project: ProjectView,
    pub counter: nat,
    pub answer: Result<OutcomeView, Refusal>,
}

impl Step {
    /// A refusal, which changes nothing.
    pub open spec fn refused(project: ProjectView, counter: nat, why: Refusal) -> Step {
        Step { project, counter, answer: Err(why) }
    }

    /// A change that creates nothing, or no change.
    pub open spec fn changed(project: ProjectView, counter: nat, applied: bool) -> Step {
        Step { project, counter, answer: Ok(OutcomeView { created_id: None, applied }) }
    }

    /// A tolerated no-op.
    pub open spec fn nothing(project: ProjectView, counter: nat) -> Step {
        Step::changed(project, counter, false)
    }

    /// A change that creates something.
    pub open spec fn created(project: ProjectView, counter: nat, id: Seq<char>) -> Step {
        Step {
            project,
            counter,
            answer: Ok(OutcomeView { created_id: Some(id), applied: true }),
        }
    }

    /// Whether a project, a counter and an answer are what this step says.
    pub open spec fn is(
        self,
        project: ProjectView,
        counter: nat,
        answer: Result<Outcome, CommandError>,
    ) -> bool {
        &&& self.project == project
        &&& self.counter == counter
        &&& match answer {
            Ok(outcome) => self.answer == Ok::<OutcomeView, Refusal>(outcome@),
            Err(error) => self.answer == Err::<OutcomeView, Refusal>(error@),
        }
    }
}

} // verus!
