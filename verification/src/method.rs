//! Methods that run as fibers of their own below a component.
use crate::effect::{panic_message, panic_text};
use crate::error::{CordisError, ErrorModel};
use crate::id::FiberId;
use crate::text::view_option;
use vstd::prelude::*;

verus! {

/// How a call into component code ended.
#[derive(Debug, PartialEq, Eq)]
pub enum CallOutcome<T> {
    Returned(Result<T, CordisError>),
    /// It panicked, with this text if the payload was one.
    Panicked(Option<String>),
}

/// A panic in component code fails the fiber that ran it.
pub fn caught<T>(fiber: FiberId, outcome: CallOutcome<T>) -> (r: Result<T, CordisError>)
    ensures
        match outcome {
            CallOutcome::Returned(result) => r == result,
            CallOutcome::Panicked(message) => r matches Err(error) && error@ == (
            ErrorModel::FiberExecutorPanicked { fiber, message: panic_text(view_option(message)) }),
        },
{
    match outcome {
        CallOutcome::Returned(result) => result,
        CallOutcome::Panicked(message) => Err(
            CordisError::FiberExecutorPanicked { fiber, message: panic_message(message) },
        ),
    }
}

/// The label of the effect that owns a method.
pub fn method_label(method: &str) -> (r: String)
    ensures
        r@ == "method:"@ + method@,
{
    let mut out = "method:".to_owned();
    out.append(method);
    out
}

/// What the registration of a method does next.
#[derive(Debug, PartialEq, Eq)]
pub enum MethodStep {
    /// Open the effect that owns the method.
    OpenEffect,
    /// Create a fiber below the component while that one is loading or active.
    CreateChild,
    /// Install what runs the fiber's transitions.
    Install(FiberId),
    /// Let the effect retire the fiber when it is disposed.
    Own(FiberId),
    /// Declare the method's dependencies.
    Configure(FiberId),
    /// Remove what was installed and retire the fiber.
    Undo(FiberId, CordisError),
    Done(FiberId),
    Failed(CordisError),
}

/// The content of a step.
pub enum MethodStepModel {
    OpenEffect,
    CreateChild,
    Install(FiberId),
    Own(FiberId),
    Configure(FiberId),
    Undo(FiberId, ErrorModel),
    Done(FiberId),
    Failed(ErrorModel),
}

impl View for MethodStep {
    type V = MethodStepModel;

    open spec fn view(&self) -> MethodStepModel {
        match self {
            MethodStep::OpenEffect => MethodStepModel::OpenEffect,
            MethodStep::CreateChild => MethodStepModel::CreateChild,
            MethodStep::Install(child) => MethodStepModel::Install(*child),
            MethodStep::Own(child) => MethodStepModel::Own(*child),
            MethodStep::Configure(child) => MethodStepModel::Configure(*child),
            MethodStep::Undo(child, error) => MethodStepModel::Undo(*child, error@),
            MethodStep::Done(child) => MethodStepModel::Done(*child),
            MethodStep::Failed(error) => MethodStepModel::Failed(error@),
        }
    }
}

/// The content of what a step came to: the fiber it created or worked on.
pub open spec fn step_result(outcome: Result<FiberId, CordisError>) -> Result<
    FiberId,
    ErrorModel,
> {
    match outcome {
        Ok(fiber) => Ok(fiber),
        Err(error) => Err(error@),
    }
}

/// The step after one with its outcome. Only a failed configuration is undone here: before it,
/// the owning effect already retires the fiber.
pub open spec fn after_step(
    step: MethodStepModel,
    outcome: Result<FiberId, ErrorModel>,
) -> MethodStepModel {
    match step {
        MethodStepModel::Undo(_, error) => MethodStepModel::Failed(error),
        MethodStepModel::Done(child) => MethodStepModel::Done(child),
        MethodStepModel::Failed(error) => MethodStepModel::Failed(error),
        MethodStepModel::Configure(child) => match outcome {
            Ok(_) => MethodStepModel::Done(child),
            Err(error) => MethodStepModel::Undo(child, error),
        },
        _ => match outcome {
            Err(error) => MethodStepModel::Failed(error),
            Ok(fiber) => match step {
                MethodStepModel::OpenEffect => MethodStepModel::CreateChild,
                MethodStepModel::CreateChild => MethodStepModel::Install(fiber),
                MethodStepModel::Install(child) => MethodStepModel::Own(child),
                MethodStepModel::Own(child) => MethodStepModel::Configure(child),
                other => other,
            },
        },
    }
}

impl MethodStep {
    /// The first step. Methods need a runtime to run in.
    pub fn start(has_runtime: bool) -> (r: MethodStep)
        ensures
            r@ == if has_runtime {
                MethodStepModel::OpenEffect
            } else {
                MethodStepModel::Failed(ErrorModel::MissingMethodRuntime)
            },
    {
        if has_runtime {
            MethodStep::OpenEffect
        } else {
            MethodStep::Failed(CordisError::MissingMethodRuntime)
        }
    }

    /// The step that follows this one with its outcome.
    pub fn after(self, outcome: Result<FiberId, CordisError>) -> (r: MethodStep)
        ensures
            r@ == after_step(self@, step_result(outcome)),
    {
        match self {
            MethodStep::Undo(_, error) => MethodStep::Failed(error),
            MethodStep::Done(child) => MethodStep::Done(child),
            MethodStep::Failed(error) => MethodStep::Failed(error),
            MethodStep::Configure(child) => match outcome {
                Ok(_) => MethodStep::Done(child),
                Err(error) => MethodStep::Undo(child, error),
            },
            MethodStep::OpenEffect => match outcome {
                Ok(_) => MethodStep::CreateChild,
                Err(error) => MethodStep::Failed(error),
            },
            MethodStep::CreateChild => match outcome {
                Ok(child) => MethodStep::Install(child),
                Err(error) => MethodStep::Failed(error),
            },
            MethodStep::Install(child) => match outcome {
                Ok(_) => MethodStep::Own(child),
                Err(error) => MethodStep::Failed(error),
            },
            MethodStep::Own(child) => match outcome {
                Ok(_) => MethodStep::Configure(child),
                Err(error) => MethodStep::Failed(error),
            },
        }
    }
}

/// A registration ends with the fiber it created once every step has succeeded; one whose
/// dependencies are refused is undone and fails with that refusal.
pub proof fn registrations_end(child: FiberId, refusal: ErrorModel)
    ensures
        ({
            let installed = after_step(
                after_step(MethodStepModel::OpenEffect, Ok(child)),
                Ok(child),
            );
            let ready = after_step(after_step(installed, Ok(child)), Ok(child));
            &&& ready == MethodStepModel::Configure(child)
            &&& after_step(ready, Ok(child)) == MethodStepModel::Done(child)
            &&& after_step(ready, Err(refusal)) == MethodStepModel::Undo(child, refusal)
            &&& after_step(after_step(ready, Err(refusal)), Ok(child)) == MethodStepModel::Failed(
                refusal,
            )
        }),
{
}

/// The effects of a method that is up.
#[derive(Debug)]
pub struct MethodFiber<E> {
    pub active: Option<E>,
}

impl<E> MethodFiber<E> {
    pub fn new() -> (r: MethodFiber<E>)
        ensures
            r.active is None,
    {
        MethodFiber { active: None }
    }

    /// Keeps the effects of a load that succeeded, and gives those of a failed one back to be
    /// disposed.
    pub fn loaded(&mut self, effects: E, result: Result<(), CordisError>) -> (r: Result<
        (),
        (E, CordisError),
    >)
        ensures
            match result {
                Ok(_) => r is Ok && final(self).active == Some(effects),
                Err(error) => r == Err::<(), (E, CordisError)>((effects, error))
                    && final(self).active == old(self).active,
            },
    {
        match result {
            Ok(_) => {
                self.active = Some(effects);
                Ok(())
            },
            Err(error) => Err((effects, error)),
        }
    }

    /// Takes the effects that an unload has to dispose.
    pub fn unload(&mut self) -> (r: Option<E>)
        ensures
            r == old(self).active,
            final(self).active is None,
    {
        let mut taken: Option<E> = None;
        std::mem::swap(&mut self.active, &mut taken);
        taken
    }
}

/// How an unload ends, given what disposing the effects said.
pub fn unload_outcome(disposal: Result<(), String>) -> (r: Result<(), CordisError>)
    ensures
        match disposal {
            Ok(_) => r is Ok,
            Err(message) => r matches Err(error) && error@ == (ErrorModel::DisposerFailed {
                message: message@,
            }),
        },
{
    match disposal {
        Ok(_) => Ok(()),
        Err(message) => Err(CordisError::DisposerFailed { message }),
    }
}

} // verus!
