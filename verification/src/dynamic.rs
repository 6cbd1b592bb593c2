//! Dynamic components: manifests, calls, revisions and the call gate.
use crate::context::{Context, ContextModel};
use crate::error::{view_error, CordisError, ErrorModel};
use crate::fiber::FiberState;
use crate::id::FiberId;
use crate::native::{EventId, EventMode};
use crate::order::TextSet;
use crate::service::{InjectSpec, ServiceId};
use crate::value::Value;
use vstd::prelude::*;

verus! {

/// What a component says of itself.
#[derive(Debug)]
pub struct DynamicComponentDescriptor {
    pub name: String,
    pub version: String,
    pub kernel_abi: String,
    pub injects: Vec<InjectSpec>,
    pub provides: Vec<ServiceId>,
    pub config_schema: Value,
    pub capabilities: TextSet,
}

/// A type-erased service request.
#[derive(Clone, Debug, PartialEq, Eq)]
pub struct DynamicCall {
    pub service: ServiceId,
    pub method: u32,
    pub payload: Vec<u8>,
}

/// A type-erased event callback request.
#[derive(Clone, Debug, PartialEq, Eq)]
pub struct EventCall {
    pub event: EventId,
    pub listener_id: u64,
    pub mode: EventMode,
    pub payload: Vec<u8>,
    pub next_token: Option<u64>,
}

/// What an event callback answers.
#[derive(Clone, Debug, PartialEq, Eq)]
pub enum EventReply {
    Continue(Vec<u8>),
    Break(Vec<u8>),
}

impl EventReply {
    /// The encoded payload, whichever way the reply goes.
    pub fn payload(&self) -> (r: &Vec<u8>)
        ensures
            match self {
                EventReply::Continue(payload) => r == payload,
                EventReply::Break(payload) => r == payload,
            },
    {
        match self {
            EventReply::Continue(payload) => payload,
            EventReply::Break(payload) => payload,
        }
    }
}

/// Registration requested by a guest.
#[derive(Clone, Debug, PartialEq, Eq)]
pub enum RegistrationRequest {
    Provide(ServiceId),
    Listen { event: EventId, listener_id: u64, mode: EventMode },
}

/// The label of the effect that owns a registration.
pub open spec fn registration_label(request: RegistrationRequest) -> Seq<char> {
    match request {
        RegistrationRequest::Provide(service) => "provide:"@ + service@.name,
        RegistrationRequest::Listen { event, .. } => "listen:"@ + event@.name,
    }
}

impl RegistrationRequest {
    pub fn label(&self) -> (r: String)
        ensures
            r@ == registration_label(*self),
    {
        match self {
            RegistrationRequest::Provide(service) => {
                let mut out = "provide:".to_owned();
                out.append(service.name());
                out
            },
            RegistrationRequest::Listen { event, .. } => {
                let mut out = "listen:".to_owned();
                out.append(event.name());
                out
            },
        }
    }
}

/// Who is inside a component: a task when there is one, and the thread it runs on.
#[derive(Clone, Copy, Debug, PartialEq, Eq, Structural)]
pub struct CallOwner {
    pub task: Option<u64>,
    pub thread: u64,
}

/// Lets one call at a time into a component.
#[derive(Debug)]
pub struct CallGate {
    pub owner: Option<CallOwner>,
}

/// Whether a call may enter.
#[derive(Clone, Copy, Debug, PartialEq, Eq, Structural)]
pub enum GateTurn {
    Entered,
    Wait,
}

fn same_owner(a: CallOwner, b: CallOwner) -> (r: bool)
    ensures
        r == (a == b),
{
    let task = match (a.task, b.task) {
        (Some(x), Some(y)) => x == y,
        (None, None) => true,
        _ => false,
    };
    task && a.thread == b.thread
}

impl CallGate {
    /// An open gate.
    pub fn new() -> (r: CallGate)
        ensures
            r.owner is None,
    {
        CallGate { owner: None }
    }

    /// Asks to enter. A call that is already inside is refused instead of waiting for itself.
    pub fn acquire(&mut self, owner: CallOwner, fiber: FiberId) -> (r: Result<
        GateTurn,
        CordisError,
    >)
        ensures
            match old(self).owner {
                None => r == Ok::<GateTurn, CordisError>(GateTurn::Entered) && final(self).owner
                    == Some(owner),
                Some(inside) => final(self).owner == old(self).owner && if inside == owner {
                    r matches Err(error) && error@ == (ErrorModel::ReentrantCall { fiber })
                } else {
                    r == Ok::<GateTurn, CordisError>(GateTurn::Wait)
                },
            },
    {
        match self.owner {
            None => {
                self.owner = Some(owner);
                Ok(GateTurn::Entered)
            },
            Some(inside) => if same_owner(inside, owner) {
                Err(CordisError::ReentrantCall { fiber })
            } else {
                Ok(GateTurn::Wait)
            },
        }
    }

    /// Leaves the component.
    pub fn release(&mut self)
        ensures
            final(self).owner is None,
    {
        self.owner = None;
    }
}

/// What is known of a mounted component's revisions.
pub struct RevisionModel {
    pub revision: u64,
    pub settled_revision: Option<u64>,
    pub load_error: Option<ErrorModel>,
    pub unload_error: Option<ErrorModel>,
    pub active: bool,
}

/// Which revision of a component is wanted, which one has been tried and how that went.
#[derive(Debug)]
pub struct DynamicFiberState {
    pub revision: u64,
    pub settled_revision: Option<u64>,
    pub load_error: Option<CordisError>,
    pub unload_error: Option<CordisError>,
    pub active: bool,
}

impl View for DynamicFiberState {
    type V = RevisionModel;

    open spec fn view(&self) -> RevisionModel {
        RevisionModel {
            revision: self.revision,
            settled_revision: self.settled_revision,
            load_error: view_error(self.load_error),
            unload_error: view_error(self.unload_error),
            active: self.active,
        }
    }
}

/// How a mounted component is replaced.
#[derive(Clone, Copy, Debug, PartialEq, Eq, Structural)]
pub enum ReplaceMode {
    Reload,
    Restart,
}

/// Only a fiber that is up or has failed can be given another component.
pub fn replace_mode(fiber: FiberId, state: FiberState) -> (r: Result<ReplaceMode, CordisError>)
    ensures
        match r {
            Ok(ReplaceMode::Reload) => state is Active,
            Ok(ReplaceMode::Restart) => state is Failed,
            Err(error) => !(state is Active || state is Failed) && error@ == (
            ErrorModel::InactiveFiber { fiber }),
        },
{
    match state {
        FiberState::Active => Ok(ReplaceMode::Reload),
        FiberState::Failed => Ok(ReplaceMode::Restart),
        _ => Err(CordisError::InactiveFiber { fiber }),
    }
}

/// The outcome once a fiber has settled: an error of the load, an error of the fiber, or
/// success if it is up.
pub open spec fn settled_result(
    fiber: FiberId,
    load_error: Option<ErrorModel>,
    failure: Option<ErrorModel>,
    state: FiberState,
) -> Result<(), ErrorModel> {
    match (load_error, failure) {
        (Some(error), _) => Err(error),
        (None, Some(error)) => Err(error),
        (None, None) => if state is Active {
            Ok(())
        } else {
            Err(ErrorModel::InactiveFiber { fiber })
        },
    }
}

/// Combines what is known once a fiber has settled.
pub fn settled_outcome(
    fiber: FiberId,
    load_error: Option<CordisError>,
    failure: Option<CordisError>,
    state: FiberState,
) -> (r: Result<(), CordisError>)
    ensures
        match (r, settled_result(fiber, view_error(load_error), view_error(failure), state)) {
            (Ok(_), Ok(_)) => true,
            (Err(error), Err(expected)) => error@ == expected,
            _ => false,
        },
{
    match load_error {
        Some(error) => Err(error),
        None => match failure {
            Some(error) => Err(error),
            None => match state {
                FiberState::Active => Ok(()),
                _ => Err(CordisError::InactiveFiber { fiber }),
            },
        },
    }
}

/// What someone who waits for a component to become active should do.
#[derive(Clone, Copy, Debug, PartialEq, Eq, Structural)]
pub enum ActivePoll {
    /// The revision has been tried: combine the outcome.
    Settled,
    /// The component is up.
    Active,
    /// Look at the fiber, and wait if it may still come up.
    Inspect,
}

/// A waiting fiber whose required dependencies are missing will not come up by itself.
pub fn waits_for_dependencies(fiber: FiberId, state: FiberState, dependencies_ready: bool) -> (r:
    Result<(), CordisError>)
    ensures
        match r {
            Ok(_) => !(state is Pending && !dependencies_ready),
            Err(error) => state is Pending && !dependencies_ready && error@ == (
            ErrorModel::InactiveFiber { fiber }),
        },
{
    match state {
        FiberState::Pending => if dependencies_ready {
            Ok(())
        } else {
            Err(CordisError::InactiveFiber { fiber })
        },
        _ => Ok(()),
    }
}

/// A revision at least as new as the wanted one has been tried.
pub open spec fn revision_settled(settled: Option<u64>, revision: u64) -> bool {
    settled is Some && settled->Some_0 >= revision
}

impl DynamicFiberState {
    /// A mounted component that was never loaded.
    pub fn new() -> (r: DynamicFiberState)
        ensures
            r@ == (RevisionModel {
                revision: 0,
                settled_revision: None,
                load_error: None,
                unload_error: None,
                active: false,
            }),
    {
        DynamicFiberState {
            revision: 0,
            settled_revision: None,
            load_error: None,
            unload_error: None,
            active: false,
        }
    }

    /// Asks for a new revision and returns the previous and the new number.
    pub fn begin_replace(&mut self) -> (r: (u64, u64))
        ensures
            r.0 == old(self)@.revision,
            r.1 == if old(self)@.revision < u64::MAX {
                (old(self)@.revision + 1) as u64
            } else {
                u64::MAX
            },
            final(self)@ == (RevisionModel { revision: r.1, load_error: None, ..old(self)@ }),
    {
        let previous = self.revision;
        if self.revision < u64::MAX {
            self.revision = self.revision + 1;
        }
        self.load_error = None;
        (previous, self.revision)
    }

    /// Takes a new revision back that could not be started.
    pub fn undo_replace(&mut self, previous: u64)
        ensures
            final(self)@ == (RevisionModel { revision: previous, ..old(self)@ }),
    {
        self.revision = previous;
    }

    /// What to do while waiting for `revision` to become active.
    pub fn poll_active(&self, revision: u64) -> (r: ActivePoll)
        ensures
            r == if revision_settled(self@.settled_revision, revision) {
                ActivePoll::Settled
            } else if self@.active {
                ActivePoll::Active
            } else {
                ActivePoll::Inspect
            },
    {
        if self.is_settled(revision) {
            ActivePoll::Settled
        } else if self.active {
            ActivePoll::Active
        } else {
            ActivePoll::Inspect
        }
    }

    /// Whether `revision` or a newer one has been tried.
    pub fn is_settled(&self, revision: u64) -> (r: bool)
        ensures
            r == revision_settled(self@.settled_revision, revision),
    {
        match self.settled_revision {
            Some(settled) => settled >= revision,
            None => false,
        }
    }

    /// Starts a load. An error left by the last unload makes the load fail instead, once.
    pub fn begin_load(&mut self) -> (r: Result<u64, CordisError>)
        ensures
            match (r, old(self)@.unload_error) {
                (Ok(revision), None) => revision == old(self)@.revision && final(self)@
                    == old(self)@,
                (Err(error), Some(expected)) => error@ == expected && final(self)@ == (
                RevisionModel {
                    unload_error: None,
                    settled_revision: Some(old(self)@.revision),
                    load_error: Some(expected),
                    ..old(self)@
                }),
                _ => false,
            },
    {
        match self.unload_error.take() {
            None => Ok(self.revision),
            Some(error) => {
                self.settled_revision = Some(self.revision);
                self.load_error = Some(error.duplicate());
                Err(error)
            },
        }
    }

    /// Ends a load of `revision`.
    pub fn finish_load(&mut self, revision: u64, result: Result<(), CordisError>) -> (r: Result<
        (),
        CordisError,
    >)
        ensures
            match (result, r) {
                (Ok(_), Ok(_)) => final(self)@ == (RevisionModel {
                    settled_revision: Some(revision),
                    load_error: None,
                    active: true,
                    ..old(self)@
                }),
                (Err(error), Err(kept)) => kept@ == error@ && final(self)@ == (RevisionModel {
                    settled_revision: Some(revision),
                    load_error: Some(error@),
                    ..old(self)@
                }),
                _ => false,
            },
    {
        self.settled_revision = Some(revision);
        match result {
            Ok(_) => {
                self.active = true;
                self.load_error = None;
                Ok(())
            },
            Err(error) => {
                self.load_error = Some(error.duplicate());
                Err(error)
            },
        }
    }

    /// Starts an unload: takes the instance, if one is up.
    pub fn begin_unload(&mut self) -> (r: bool)
        ensures
            r == old(self)@.active,
            final(self)@ == (RevisionModel { active: false, ..old(self)@ }),
    {
        let up = self.active;
        self.active = false;
        up
    }

    /// Ends an unload: the instance's own error counts before the cleanup's.
    pub fn finish_unload(
        &mut self,
        deactivated: Result<(), CordisError>,
        disposed: Result<(), CordisError>,
    ) -> (r: Result<(), CordisError>)
        ensures
            ({
                let expected = match (deactivated, disposed) {
                    (Err(error), _) => Some(error@),
                    (Ok(_), Err(error)) => Some(error@),
                    (Ok(_), Ok(_)) => None,
                };
                &&& final(self)@ == (RevisionModel { unload_error: expected, ..old(self)@ })
                &&& match r {
                    Ok(_) => expected is None,
                    Err(error) => expected == Some(error@),
                }
            }),
    {
        let result = match deactivated {
            Err(error) => Err(error),
            Ok(_) => disposed,
        };
        match result {
            Ok(_) => {
                self.unload_error = None;
                Ok(())
            },
            Err(error) => {
                self.unload_error = Some(error.duplicate());
                Err(error)
            },
        }
    }

    /// The outcome of retiring the component: the error of its last unload, reported once.
    pub fn retired(&mut self) -> (r: Result<(), CordisError>)
        ensures
            final(self)@ == (RevisionModel { unload_error: None, ..old(self)@ }),
            match (r, old(self)@.unload_error) {
                (Ok(_), None) => true,
                (Err(error), Some(expected)) => error@ == expected,
                _ => false,
            },
    {
        match self.unload_error.take() {
            None => Ok(()),
            Some(error) => Err(error),
        }
    }

    /// Calls enter only a component that is up.
    pub fn require_active(&self, fiber: FiberId) -> (r: Result<(), CordisError>)
        ensures
            match r {
                Ok(_) => self@.active,
                Err(error) => !self@.active && error@ == (ErrorModel::InactiveFiber { fiber }),
            },
    {
        if self.active {
            Ok(())
        } else {
            Err(CordisError::InactiveFiber { fiber })
        }
    }
}

/// What a load does next.
#[derive(Debug, PartialEq, Eq)]
pub enum LoadStep {
    /// Create the instance.
    Instantiate,
    /// Activate it with its configuration.
    Activate,
    /// Deactivate the instance that could not be activated.
    Deactivate(CordisError),
    /// Dispose the effects of the attempt.
    Dispose(CordisError),
    Finish(Result<(), CordisError>),
}

/// The content of a step.
pub enum LoadStepModel {
    Instantiate,
    Activate,
    Deactivate(ErrorModel),
    Dispose(ErrorModel),
    Finish(Result<(), ErrorModel>),
}

/// The content of an outcome.
pub open spec fn outcome_of(result: Result<(), CordisError>) -> Result<(), ErrorModel> {
    match result {
        Ok(_) => Ok(()),
        Err(error) => Err(error@),
    }
}

impl View for LoadStep {
    type V = LoadStepModel;

    open spec fn view(&self) -> LoadStepModel {
        match self {
            LoadStep::Instantiate => LoadStepModel::Instantiate,
            LoadStep::Activate => LoadStepModel::Activate,
            LoadStep::Deactivate(error) => LoadStepModel::Deactivate(error@),
            LoadStep::Dispose(error) => LoadStepModel::Dispose(error@),
            LoadStep::Finish(result) => LoadStepModel::Finish(outcome_of(*result)),
        }
    }
}

/// The step after one with its outcome. Cleaning up never hides why a load failed.
pub open spec fn after_load_step(
    step: LoadStepModel,
    outcome: Result<(), ErrorModel>,
) -> LoadStepModel {
    match step {
        LoadStepModel::Instantiate => match outcome {
            Ok(_) => LoadStepModel::Activate,
            Err(error) => LoadStepModel::Dispose(error),
        },
        LoadStepModel::Activate => match outcome {
            Ok(_) => LoadStepModel::Finish(Ok(())),
            Err(error) => LoadStepModel::Deactivate(error),
        },
        LoadStepModel::Deactivate(error) => LoadStepModel::Dispose(error),
        LoadStepModel::Dispose(error) => LoadStepModel::Finish(Err(error)),
        LoadStepModel::Finish(result) => LoadStepModel::Finish(result),
    }
}

impl LoadStep {
    /// The step that follows this one with its outcome.
    pub fn after(self, outcome: Result<(), CordisError>) -> (r: LoadStep)
        ensures
            r@ == after_load_step(self@, outcome_of(outcome)),
    {
        match self {
            LoadStep::Instantiate => match outcome {
                Ok(_) => LoadStep::Activate,
                Err(error) => LoadStep::Dispose(error),
            },
            LoadStep::Activate => match outcome {
                Ok(_) => LoadStep::Finish(Ok(())),
                Err(error) => LoadStep::Deactivate(error),
            },
            LoadStep::Deactivate(error) => LoadStep::Dispose(error),
            LoadStep::Dispose(error) => LoadStep::Finish(Err(error)),
            LoadStep::Finish(result) => LoadStep::Finish(result),
        }
    }
}

/// A load that fails deactivates what it created, disposes its effects, and reports the failure
/// whatever the cleanup says.
pub proof fn failed_loads_are_cleaned_up(
    failure: ErrorModel,
    deactivated: Result<(), ErrorModel>,
    disposed: Result<(), ErrorModel>,
)
    ensures
        ({
            let rejected = after_load_step(LoadStepModel::Activate, Err(failure));
            let cleaned = after_load_step(rejected, deactivated);
            &&& rejected == LoadStepModel::Deactivate(failure)
            &&& cleaned == LoadStepModel::Dispose(failure)
            &&& after_load_step(cleaned, disposed) == LoadStepModel::Finish(Err(failure))
            &&& after_load_step(LoadStepModel::Instantiate, Err(failure)) == cleaned
        }),
{
}

/// What mounting a component on a new fiber does next.
#[derive(Debug, PartialEq, Eq)]
pub enum MountStep {
    /// Create the fiber.
    Create,
    /// Install what runs the fiber's transitions.
    Install(FiberId),
    /// Declare the component's dependencies.
    Configure(FiberId),
    /// Retire the fiber.
    Retire(FiberId, CordisError),
    /// Wait until the fiber is disposed of.
    AwaitDisposed(FiberId, CordisError),
    /// Remove what was installed.
    Uninstall(FiberId, CordisError),
    Done(FiberId),
    Failed(CordisError),
}

/// The content of a step.
pub enum MountStepModel {
    Create,
    Install(FiberId),
    Configure(FiberId),
    Retire(FiberId, ErrorModel),
    AwaitDisposed(FiberId, ErrorModel),
    Uninstall(FiberId, ErrorModel),
    Done(FiberId),
    Failed(ErrorModel),
}

impl View for MountStep {
    type V = MountStepModel;

    open spec fn view(&self) -> MountStepModel {
        match self {
            MountStep::Create => MountStepModel::Create,
            MountStep::Install(fiber) => MountStepModel::Install(*fiber),
            MountStep::Configure(fiber) => MountStepModel::Configure(*fiber),
            MountStep::Retire(fiber, error) => MountStepModel::Retire(*fiber, error@),
            MountStep::AwaitDisposed(fiber, error) => MountStepModel::AwaitDisposed(
                *fiber,
                error@,
            ),
            MountStep::Uninstall(fiber, error) => MountStepModel::Uninstall(*fiber, error@),
            MountStep::Done(fiber) => MountStepModel::Done(*fiber),
            MountStep::Failed(error) => MountStepModel::Failed(error@),
        }
    }
}

/// The content of what a step came to: the fiber it created or worked on.
pub open spec fn mount_outcome(outcome: Result<FiberId, CordisError>) -> Result<
    FiberId,
    ErrorModel,
> {
    match outcome {
        Ok(fiber) => Ok(fiber),
        Err(error) => Err(error@),
    }
}

/// The step after one with its outcome. A component whose dependencies are refused is taken
/// down again whatever its cleanup says.
pub open spec fn after_mount_step(
    step: MountStepModel,
    outcome: Result<FiberId, ErrorModel>,
) -> MountStepModel {
    match step {
        MountStepModel::Create => match outcome {
            Ok(fiber) => MountStepModel::Install(fiber),
            Err(error) => MountStepModel::Failed(error),
        },
        MountStepModel::Install(fiber) => MountStepModel::Configure(fiber),
        MountStepModel::Configure(fiber) => match outcome {
            Ok(_) => MountStepModel::Done(fiber),
            Err(error) => MountStepModel::Retire(fiber, error),
        },
        MountStepModel::Retire(fiber, error) => MountStepModel::AwaitDisposed(fiber, error),
        MountStepModel::AwaitDisposed(fiber, error) => MountStepModel::Uninstall(fiber, error),
        MountStepModel::Uninstall(_, error) => MountStepModel::Failed(error),
        MountStepModel::Done(fiber) => MountStepModel::Done(fiber),
        MountStepModel::Failed(error) => MountStepModel::Failed(error),
    }
}

impl MountStep {
    /// The step that follows this one with its outcome.
    pub fn after(self, outcome: Result<FiberId, CordisError>) -> (r: MountStep)
        ensures
            r@ == after_mount_step(self@, mount_outcome(outcome)),
    {
        match self {
            MountStep::Create => match outcome {
                Ok(fiber) => MountStep::Install(fiber),
                Err(error) => MountStep::Failed(error),
            },
            MountStep::Install(fiber) => MountStep::Configure(fiber),
            MountStep::Configure(fiber) => match outcome {
                Ok(_) => MountStep::Done(fiber),
                Err(error) => MountStep::Retire(fiber, error),
            },
            MountStep::Retire(fiber, error) => MountStep::AwaitDisposed(fiber, error),
            MountStep::AwaitDisposed(fiber, error) => MountStep::Uninstall(fiber, error),
            MountStep::Uninstall(_, error) => MountStep::Failed(error),
            MountStep::Done(fiber) => MountStep::Done(fiber),
            MountStep::Failed(error) => MountStep::Failed(error),
        }
    }
}

/// The context a component is mounted with: below a given one, or one of its own.
pub fn mount_context(base: Option<&Context>, fiber: FiberId) -> (r: Context)
    ensures
        r@ == match base {
            Some(base) => ContextModel { fiber, ..base@ },
            None => ContextModel { fiber, realms: Seq::empty(), intercepts: Seq::empty() },
        },
{
    match base {
        Some(base) => base.extend(fiber),
        None => Context::root(fiber),
    }
}

/// A mount that is refused takes its fiber down, waits until that is disposed of, removes what
/// was installed and reports the refusal, whatever the cleanup says.
pub proof fn refused_mounts_are_cleaned_up(
    fiber: FiberId,
    refusal: ErrorModel,
    retired: Result<FiberId, ErrorModel>,
    disposed: Result<FiberId, ErrorModel>,
    removed: Result<FiberId, ErrorModel>,
)
    ensures
        ({
            let refused = after_mount_step(MountStepModel::Configure(fiber), Err(refusal));
            let second = after_mount_step(refused, retired);
            let third = after_mount_step(second, disposed);
            &&& refused == MountStepModel::Retire(fiber, refusal)
            &&& second == MountStepModel::AwaitDisposed(fiber, refusal)
            &&& third == MountStepModel::Uninstall(fiber, refusal)
            &&& after_mount_step(third, removed) == MountStepModel::Failed(refusal)
        }),
{
}

} // verus!
