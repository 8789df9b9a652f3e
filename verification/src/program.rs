//! What an operation of the policy does, as a conversation with the system.
//!
//! An operation asks the system for one thing after another, and each answer
//! decides how it goes on. A `Program` is the whole tree of such conversations.

use crate::request::{Answer, Call, Reply, Request};
use crate::state::{PolicyModel, PolicyState};
use vstd::prelude::*;

verus! {

/// An operation, or what is left of it.
pub enum Program {
    /// It has ended: what the policy remembers now, and the operation's result.
    Done(PolicyModel, bool),
    /// It asks for something and goes on with the answer.
    Ask(Call, spec_fn(Answer) -> Program),
}

/// An operation followed by another, which gets what the first one ends with.
pub open spec fn bind(first: Program, next: spec_fn(PolicyModel, bool) -> Program) -> Program
    decreases first,
{
    match first {
        Program::Done(state, result) => next(state, result),
        Program::Ask(call, then) => Program::Ask(call, |answer: Answer| bind(then(answer), next)),
    }
}

/// What is left of an operation after an answer.
pub open spec fn after_answer(program: Program, answer: Answer) -> Program {
    match program {
        Program::Done(_, _) => program,
        Program::Ask(_, then) => then(answer),
    }
}

/// What an operation asks for.
pub open spec fn asked(program: Program) -> Option<Call> {
    match program {
        Program::Done(_, _) => None,
        Program::Ask(call, _) => Some(call),
    }
}

/// A sequence of two operations asks what the first one asks, and goes on with the
/// rest of the first one.
pub proof fn lemma_bind(first: Program, next: spec_fn(PolicyModel, bool) -> Program, answer: Answer)
    requires
        first is Ask,
    ensures
        asked(bind(first, next)) == asked(first),
        after_answer(bind(first, next), answer) == bind(after_answer(first, answer), next),
{
}

/// An operation that waits for an answer.
pub trait Unfinished: Sized {
    /// What holds of every such operation.
    spec fn valid(&self) -> bool;

    /// What is left of the operation, with what the policy remembers.
    spec fn program(&self, state: PolicyModel) -> Program;

    /// Something is left.
    proof fn lemma_asks(&self, state: PolicyModel)
        requires
            self.valid(),
        ensures
            self.program(state) is Ask,
    ;
}

/// An operation that waits for an answer, and can go on.
pub trait Task: Unfinished {
    /// What the operation asks for.
    fn request(&self, state: &PolicyState) -> (request: Request)
        requires
            self.valid(),
        ensures
            asked(self.program(state@)) == Some(request@),
    ;

    /// Goes on with the answer.
    fn resume(self, state: &mut PolicyState, reply: Reply) -> (progress: Progress<Self>)
        requires
            self.valid(),
        ensures
            progress.valid(),
            progress.program(final(state)@) == after_answer(self.program(old(state)@), reply@),
    ;
}

/// Where an operation has got to.
pub enum Progress<T> {
    /// It waits for an answer.
    Waiting(T),
    /// It has ended, with a result.
    Finished(bool),
}

impl<T: Unfinished> Progress<T> {
    pub open spec fn valid(&self) -> bool {
        match self {
            Progress::Waiting(task) => task.valid(),
            Progress::Finished(_) => true,
        }
    }

    /// What is left of the operation, with what the policy remembers.
    pub open spec fn program(&self, state: PolicyModel) -> Program {
        match self {
            Progress::Waiting(task) => task.program(state),
            Progress::Finished(result) => Program::Done(state, *result),
        }
    }
}

}
