//! The commands that a supervisor takes one at a time, and what it answers.
use crate::context::{Context, ContextModel};
use crate::error::{CordisError, ErrorModel};
use crate::fiber::{
    completed, completion_keeps_valid, current_generation, desired_keeps_valid,
    desired_transition, next_transition, reload_keeps_valid, reloadable, restart_keeps_valid,
    restart_kind, restarted, result_model, started, DesiredModel, FiberTransition, KindModel,
    TransitionModel,
};
use crate::id::{FiberId, RealmId};
use crate::search::first_index_is_first;
use crate::service::{CommittedView, InjectModel, InjectSpec, ProviderKey, ProviderKeyModel};
use crate::supervisor::{
    shows, DependencyChange, RegistryChange, RuntimeSnapshot, SupervisorState, TransitionUpdate,
};
use crate::supervisor_model::{
    advance_transition, advanced, as_queue, blocked_with, blocking_keeps, changed, commit_error,
    commit_keeps, complete_error, completion_state, completion_work, configure_error, consumed,
    consumers_first, consumes, create_error, created, creation_keeps, cycle_of, declared, drained, emitted,
    fiber_at, generations_left, idle, idle_is_free, index_of, known, load_failed, marked,
    owners_known, provide_error, queue_rest, queue_swapped, queue_valid, realm_missing,
    reassigned, reassigned_keeps, reconciled, reconfigured, reconfigured_work, record_current,
    record_valid, replaced_keeps, resolve_all, restart_transition, retirement_work, room,
    scheduled, scheduled_keeps, scheduled_work, settling_keeps, target, unknown_error, valid,
    with_machine, with_record, withdraw_error, withdrawn, withdrawn_idle, withdrawn_keeps,
    withdrawn_work, without_owner, RecordModel, SupervisorModel,
};
use crate::text::{group_views, views};
use vstd::prelude::*;

verus! {

broadcast use group_views;

/// A command to the supervisor.
#[derive(Debug)]
pub enum Command {
    CreateFiber { parent: Option<FiberId>, require_live_parent: bool },
    AllocateRealm,
    ConfigureDependencies { fiber: FiberId, context: Context, injects: Vec<InjectSpec> },
    CommitDependencies { fiber: FiberId },
    Provide { key: ProviderKey, provider: FiberId },
    Withdraw { key: ProviderKey, provider: FiberId },
    CompleteTransition { fiber: FiberId, generation: u64, result: Result<(), CordisError> },
    RetireFiber { fiber: FiberId },
    RestartFiber { fiber: FiberId },
    ReloadFiber { fiber: FiberId },
    Snapshot,
    Shutdown,
}

/// The model of a command.
pub enum CommandModel {
    CreateFiber { parent: Option<FiberId>, require_live_parent: bool },
    AllocateRealm,
    ConfigureDependencies { fiber: FiberId, context: ContextModel, injects: Seq<InjectModel> },
    CommitDependencies { fiber: FiberId },
    Provide { key: ProviderKeyModel, provider: FiberId },
    Withdraw { key: ProviderKeyModel, provider: FiberId },
    CompleteTransition { fiber: FiberId, generation: u64, result: Result<(), ErrorModel> },
    RetireFiber { fiber: FiberId },
    RestartFiber { fiber: FiberId },
    ReloadFiber { fiber: FiberId },
    Snapshot,
    Shutdown,
}

impl View for Command {
    type V = CommandModel;

    open spec fn view(&self) -> CommandModel {
        match *self {
            Command::CreateFiber { parent, require_live_parent } => CommandModel::CreateFiber {
                parent,
                require_live_parent,
            },
            Command::AllocateRealm => CommandModel::AllocateRealm,
            Command::ConfigureDependencies {
                fiber,
                context,
                injects,
            } => CommandModel::ConfigureDependencies {
                fiber,
                context: context@,
                injects: views(injects@),
            },
            Command::CommitDependencies { fiber } => CommandModel::CommitDependencies { fiber },
            Command::Provide { key, provider } => CommandModel::Provide { key: key@, provider },
            Command::Withdraw { key, provider } => CommandModel::Withdraw { key: key@, provider },
            Command::CompleteTransition {
                fiber,
                generation,
                result,
            } => CommandModel::CompleteTransition {
                fiber,
                generation,
                result: result_model(result),
            },
            Command::RetireFiber { fiber } => CommandModel::RetireFiber { fiber },
            Command::RestartFiber { fiber } => CommandModel::RestartFiber { fiber },
            Command::ReloadFiber { fiber } => CommandModel::ReloadFiber { fiber },
            Command::Snapshot => CommandModel::Snapshot,
            Command::Shutdown => CommandModel::Shutdown,
        }
    }
}

/// The answer to a command.
#[derive(Debug)]
pub enum Reply {
    Fiber(Result<FiberId, CordisError>),
    Realm(RealmId),
    Dependencies(Result<DependencyChange, CordisError>),
    Committed(Result<CommittedView, CordisError>),
    Registry(Result<RegistryChange, CordisError>),
    Update(Result<TransitionUpdate, CordisError>),
    Work(Result<Vec<FiberTransition>, CordisError>),
    Snapshot(RuntimeSnapshot),
}

/// The identifiers and generations that a command may draw are not used up.
pub open spec fn affordable(s: SupervisorModel, command: CommandModel) -> bool {
    match command {
        CommandModel::CreateFiber { .. } => s.next_fiber < u64::MAX,
        CommandModel::AllocateRealm => s.next_realm < u64::MAX && s.allocated_realms < u64::MAX,
        CommandModel::CommitDependencies { .. } => true,
        CommandModel::Snapshot => true,
        CommandModel::Shutdown => true,
        _ => generations_left(s.fibers),
    }
}

/// Why a command is refused.
pub open spec fn refusal(s: SupervisorModel, command: CommandModel) -> Option<ErrorModel> {
    match command {
        CommandModel::CreateFiber { parent, require_live_parent } => create_error(
            s,
            parent,
            require_live_parent,
        ),
        CommandModel::ConfigureDependencies { fiber, context, injects } => configure_error(
            s,
            fiber,
            context,
            injects,
        ),
        CommandModel::CommitDependencies { fiber } => commit_error(s, fiber),
        CommandModel::Provide { key, provider } => provide_error(s, key, provider),
        CommandModel::Withdraw { key, provider } => withdraw_error(s, key, provider),
        CommandModel::CompleteTransition { fiber, .. } => complete_error(s, fiber),
        CommandModel::RetireFiber { fiber } => unknown_error(s, fiber),
        CommandModel::RestartFiber { fiber } => unknown_error(s, fiber),
        CommandModel::ReloadFiber { fiber } => unknown_error(s, fiber),
        _ => None,
    }
}

/// The state in which the work of an accepted command is scheduled, and that work. The other
/// commands have none.
pub open spec fn unscheduled(s: SupervisorModel, command: CommandModel) -> Option<
    (SupervisorModel, Seq<TransitionModel>),
> {
    match command {
        CommandModel::ConfigureDependencies { fiber, context, injects } => Some(
            (
                reconfigured(s, fiber, context, injects),
                reconfigured_work(s, fiber, context, injects),
            ),
        ),
        CommandModel::Provide { key, provider } => {
            let next = reassigned(s, s.providers.insert(key, provider));
            Some(
                (
                    SupervisorModel { fibers: reconciled(next.fibers), ..next },
                    emitted(next.fibers, next.fibers.len()),
                ),
            )
        },
        CommandModel::Withdraw { key, .. } => {
            let next = reassigned(s, s.providers.remove(key));
            Some(
                (
                    SupervisorModel { fibers: reconciled(next.fibers), ..next },
                    emitted(next.fibers, next.fibers.len()),
                ),
            )
        },
        CommandModel::CompleteTransition { fiber, generation, result } => Some(
            (
                completion_state(s, fiber, generation, result),
                completion_work(s, fiber, generation, result),
            ),
        ),
        CommandModel::RetireFiber { fiber } => Some(
            (withdrawn(marked(s, fiber), fiber), retirement_work(s, fiber)),
        ),
        CommandModel::RestartFiber { fiber } => {
            let m = s.fibers[index_of(s.fibers, fiber)].machine;
            Some((with_machine(s, fiber, restarted(m)), as_queue(restart_transition(m))))
        },
        CommandModel::ReloadFiber { fiber } => {
            let m = s.fibers[index_of(s.fibers, fiber)].machine;
            if reloadable(m) {
                Some(
                    (
                        with_machine(s, fiber, started(m, KindModel::Unload)),
                        seq![next_transition(m, KindModel::Unload)],
                    ),
                )
            } else {
                Some((s, Seq::empty()))
            }
        },
        _ => None,
    }
}

/// The state after a command. A refused command changes nothing.
pub open spec fn obeyed(s: SupervisorModel, command: CommandModel) -> SupervisorModel {
    if refusal(s, command) is Some {
        s
    } else {
        match unscheduled(s, command) {
            Some((next, queue)) => scheduled(next, queue),
            None => match command {
                CommandModel::CreateFiber { parent, .. } => created(s, parent),
                CommandModel::AllocateRealm => SupervisorModel {
                    next_realm: (s.next_realm + 1) as u64,
                    allocated_realms: (s.allocated_realms + 1) as u64,
                    ..s
                },
                CommandModel::CommitDependencies { fiber } => {
                    let i = index_of(s.fibers, fiber);
                    with_record(
                        s,
                        i,
                        RecordModel { committed: Some(s.fibers[i].desired), ..s.fibers[i] },
                    )
                },
                _ => s,
            },
        }
    }
}

/// The transitions that a command lets run.
pub open spec fn work(s: SupervisorModel, command: CommandModel) -> Seq<TransitionModel> {
    if refusal(s, command) is Some {
        Seq::empty()
    } else {
        match unscheduled(s, command) {
            Some((next, queue)) => scheduled_work(next, queue),
            None => Seq::empty(),
        }
    }
}

/// A reply is the answer to a command.
pub open spec fn answers(s: SupervisorModel, command: CommandModel, reply: Reply) -> bool {
    match (command, reply) {
        (CommandModel::CreateFiber { .. }, Reply::Fiber(result)) => match (
            result,
            refusal(s, command),
        ) {
            (Ok(id), None) => id.0 == s.next_fiber,
            (Err(error), Some(expected)) => error@ == expected,
            _ => false,
        },
        (CommandModel::AllocateRealm, Reply::Realm(realm)) => realm.0 == s.next_realm,
        (
            CommandModel::ConfigureDependencies { context, injects, .. },
            Reply::Dependencies(result),
        ) => match (result, refusal(s, command)) {
            (Ok(change), None) => {
                &&& change.resolution@ == resolve_all(s.providers, context.realms, injects)
                &&& views(change.transitions@) == work(s, command)
            },
            (Err(error), Some(expected)) => error@ == expected,
            _ => false,
        },
        (CommandModel::CommitDependencies { fiber }, Reply::Committed(result)) => match (
            result,
            refusal(s, command),
        ) {
            (Ok(view), None) => view@ == s.fibers[index_of(s.fibers, fiber)].desired,
            (Err(error), Some(expected)) => error@ == expected,
            _ => false,
        },
        (CommandModel::Provide { key, provider }, Reply::Registry(result)) => match (
            result,
            refusal(s, command),
        ) {
            (Ok(change), None) => {
                let next = reassigned(s, s.providers.insert(key, provider));
                &&& change.key@ == key
                &&& change.affected@ == changed(s.fibers, next.fibers, next.fibers.len())
                &&& views(change.transitions@) == work(s, command)
            },
            (Err(error), Some(expected)) => error@ == expected,
            _ => false,
        },
        (CommandModel::Withdraw { key, .. }, Reply::Registry(result)) => match (
            result,
            refusal(s, command),
        ) {
            (Ok(change), None) => {
                let next = reassigned(s, s.providers.remove(key));
                &&& change.key@ == key
                &&& change.affected@ == changed(s.fibers, next.fibers, next.fibers.len())
                &&& views(change.transitions@) == work(s, command)
            },
            (Err(error), Some(expected)) => error@ == expected,
            _ => false,
        },
        (
            CommandModel::CompleteTransition { fiber, generation, .. },
            Reply::Update(result),
        ) => match (result, refusal(s, command)) {
            (Ok(update), None) => {
                let m = s.fibers[index_of(s.fibers, fiber)].machine;
                &&& update.status is IgnoredStale <==> !current_generation(m, generation)
                &&& views(update.ready@) == work(s, command)
            },
            (Err(error), Some(expected)) => error@ == expected,
            _ => false,
        },
        (CommandModel::RetireFiber { .. }, Reply::Work(result)) => work_answers(
            s,
            command,
            result,
        ),
        (CommandModel::RestartFiber { .. }, Reply::Work(result)) => work_answers(
            s,
            command,
            result,
        ),
        (CommandModel::ReloadFiber { .. }, Reply::Work(result)) => work_answers(
            s,
            command,
            result,
        ),
        (CommandModel::Snapshot, Reply::Snapshot(snapshot)) => pictures(snapshot, s),
        (CommandModel::Shutdown, Reply::Snapshot(snapshot)) => pictures(snapshot, s),
        _ => false,
    }
}

/// The answer to a command that only starts work.
pub open spec fn work_answers(
    s: SupervisorModel,
    command: CommandModel,
    result: Result<Vec<FiberTransition>, CordisError>,
) -> bool {
    match (result, refusal(s, command)) {
        (Ok(transitions), None) => views(transitions@) == work(s, command),
        (Err(error), Some(expected)) => error@ == expected,
        _ => false,
    }
}

/// A snapshot shows a state.
pub open spec fn pictures(snapshot: RuntimeSnapshot, s: SupervisorModel) -> bool {
    &&& snapshot.fibers@.len() == s.fibers.len()
    &&& forall|i: int|
        0 <= i < s.fibers.len() ==> shows(#[trigger] snapshot.fibers@[i], s.fibers[i])
    &&& snapshot.allocated_realms == s.allocated_realms
    &&& s.providers.dom().finite()
    &&& snapshot.provider_count == s.providers.dom().len()
}

impl SupervisorState {
    /// Carries a command out. The second part of the result says whether more commands are
    /// taken; a shutdown ends that.
    pub fn handle(&mut self, command: Command) -> (r: (Reply, bool))
        requires
            old(self).wf(),
            affordable(old(self)@, command@),
        ensures
            final(self).wf(),
            final(self)@ == obeyed(old(self)@, command@),
            answers(old(self)@, command@, r.0),
            r.1 == !(command is Shutdown),
    {
        match command {
            Command::CreateFiber { parent, require_live_parent } => (
                Reply::Fiber(self.create_fiber(parent, require_live_parent)),
                true,
            ),
            Command::AllocateRealm => (Reply::Realm(self.allocate_realm()), true),
            Command::ConfigureDependencies { fiber, context, injects } => (
                Reply::Dependencies(self.configure_dependencies(fiber, context, injects)),
                true,
            ),
            Command::CommitDependencies { fiber } => (
                Reply::Committed(self.commit_dependencies(fiber)),
                true,
            ),
            Command::Provide { key, provider } => (
                Reply::Registry(self.provide(key, provider)),
                true,
            ),
            Command::Withdraw { key, provider } => (
                Reply::Registry(self.withdraw(key, provider)),
                true,
            ),
            Command::CompleteTransition { fiber, generation, result } => (
                Reply::Update(self.complete_transition(fiber, generation, result)),
                true,
            ),
            Command::RetireFiber { fiber } => (Reply::Work(self.retire_fiber(fiber)), true),
            Command::RestartFiber { fiber } => (Reply::Work(self.restart_fiber(fiber)), true),
            Command::ReloadFiber { fiber } => (Reply::Work(self.reload_fiber(fiber)), true),
            Command::Snapshot => (Reply::Snapshot(self.snapshot()), true),
            Command::Shutdown => (Reply::Snapshot(self.snapshot()), false),
        }
    }
}

// ---------------------------------------------------------------------------------------------
// What every command keeps
// ---------------------------------------------------------------------------------------------

/// What stays of a fiber: who it is, that it is retired or disposed of, and which generations
/// are spent.
pub open spec fn outlasts(before: RecordModel, after: RecordModel) -> bool {
    &&& after.id == before.id
    &&& after.parent == before.parent
    &&& before.retired ==> after.retired
    &&& before.machine.state is Disposed ==> after.machine.state is Disposed
    &&& before.machine.next_generation <= after.machine.next_generation
}

/// Every fiber is still there.
pub open spec fn continues(before: Seq<RecordModel>, after: Seq<RecordModel>) -> bool {
    &&& before.len() <= after.len()
    &&& forall|i: int| 0 <= i < before.len() ==> outlasts(before[i], #[trigger] after[i])
}

proof fn continues_twice(a: Seq<RecordModel>, b: Seq<RecordModel>, c: Seq<RecordModel>)
    requires
        continues(a, b),
        continues(b, c),
    ensures
        continues(a, c),
{
    assert forall|i: int| 0 <= i < a.len() implies outlasts(a[i], #[trigger] c[i]) by {
        assert(outlasts(a[i], b[i]));
        assert(outlasts(b[i], c[i]));
    }
}

proof fn reconciled_continues(s: SupervisorModel)
    requires
        valid(s),
        room(s.fibers),
    ensures
        continues(s.fibers, reconciled(s.fibers)),
{
    let after = reconciled(s.fibers);
    assert forall|i: int| 0 <= i < s.fibers.len() implies outlasts(
        s.fibers[i],
        #[trigger] after[i],
    ) by {
        assert(record_valid(s.fibers[i], s.next_fiber));
        desired_keeps_valid(
            s.fibers[i].machine,
            target(s.fibers[i], cycle_of(s.fibers, i)),
        );
    }
}

proof fn withdrawn_continues(s: SupervisorModel, fiber: FiberId)
    requires
        valid(s),
        room(s.fibers),
    ensures
        continues(s.fibers, withdrawn(s, fiber).fibers),
{
    let providers = without_owner(s.providers, fiber);
    assert(owners_known(s.fibers, providers));
    reassigned_keeps(s, providers);
    let next = reassigned(s, providers);
    assert(continues(s.fibers, next.fibers));
    reconciled_continues(next);
    continues_twice(s.fibers, next.fibers, reconciled(next.fibers));
}

proof fn drained_continues(
    s: SupervisorModel,
    queue: Seq<TransitionModel>,
    ready: Seq<TransitionModel>,
)
    requires
        valid(s),
        room(s.fibers),
        queue_valid(s, queue),
    ensures
        continues(s.fibers, drained(s, queue, ready).0.fibers),
    decreases queue.len() + 2 * idle(s.fibers),
{
    if queue.len() > 0 {
        let t = queue[0];
        let rest = queue.drop_first();
        if t.kind is Load {
            queue_rest(s, queue);
            drained_continues(s, rest, ready.push(t));
        } else {
            let waiting = SupervisorModel { blocked: blocked_with(s.blocked, t), ..s };
            blocking_keeps(s, queue);
            withdrawn_keeps(waiting, t.fiber, rest);
            withdrawn_idle(waiting, t.fiber);
            let after = withdrawn(waiting, t.fiber);
            let more = rest + withdrawn_work(waiting, t.fiber);
            withdrawn_continues(waiting, t.fiber);
            drained_continues(after, more, ready);
            continues_twice(s.fibers, after.fibers, drained(after, more, ready).0.fibers);
        }
    }
}

/// The state in which the work of a command is scheduled is valid, and so is that work.
pub proof fn unscheduled_keeps(s: SupervisorModel, command: CommandModel)
    requires
        valid(s),
        affordable(s, command),
        refusal(s, command) is None,
        unscheduled(s, command) is Some,
    ensures
        ({
            let (next, queue) = unscheduled(s, command)->Some_0;
            &&& valid(next)
            &&& room(next.fibers)
            &&& queue_valid(next, queue)
            &&& continues(s.fibers, next.fibers)
        }),
{
    let none = Seq::<TransitionModel>::empty();
    assert(queue_valid(s, none));
    match command {
        CommandModel::ConfigureDependencies { fiber, context, injects } => {
            configured_keeps(s, fiber, context, injects);
        },
        CommandModel::Provide { key, provider } => {
            reassigned_settles(s, s.providers.insert(key, provider));
        },
        CommandModel::Withdraw { key, .. } => {
            reassigned_settles(s, s.providers.remove(key));
        },
        CommandModel::CompleteTransition { fiber, generation, result } => {
            completed_keeps(s, fiber, generation, result);
        },
        CommandModel::RetireFiber { fiber } => {
            retired_keeps(s, fiber);
        },
        CommandModel::RestartFiber { fiber } => {
            let i = index_of(s.fibers, fiber);
            assert(fiber_at(s.fibers, fiber, i));
            let m = s.fibers[i].machine;
            assert(record_valid(s.fibers[i], s.next_fiber));
            assert(record_current(s.fibers[i], s.providers));
            restart_keeps_valid(m);
            if m.active is None {
                idle_is_free(s, none, i);
            }
            let next = with_machine(s, fiber, restarted(m));
            replaced_keeps(s, none, i, next.fibers[i]);
            match restart_transition(m) {
                Some(t) => {
                    assert(as_queue(restart_transition(m)) =~= none.push(t));
                },
                None => {
                    assert(as_queue(restart_transition(m)) =~= none);
                },
            }
        },
        CommandModel::ReloadFiber { fiber } => {
            let i = index_of(s.fibers, fiber);
            assert(fiber_at(s.fibers, fiber, i));
            let m = s.fibers[i].machine;
            assert(record_valid(s.fibers[i], s.next_fiber));
            assert(record_current(s.fibers[i], s.providers));
            if reloadable(m) {
                let next = with_machine(s, fiber, started(m, KindModel::Unload));
                reload_keeps_valid(m);
                idle_is_free(s, none, i);
                replaced_keeps(s, none, i, next.fibers[i]);
                assert(seq![next_transition(m, KindModel::Unload)] =~= none.push(
                    next_transition(m, KindModel::Unload),
                ));
            }
        },
        _ => {},
    }
}

proof fn reassigned_settles(s: SupervisorModel, providers: Map<ProviderKeyModel, FiberId>)
    requires
        valid(s),
        room(s.fibers),
        owners_known(s.fibers, providers),
    ensures
        ({
            let next = reassigned(s, providers);
            let moved = SupervisorModel { fibers: reconciled(next.fibers), ..next };
            &&& valid(moved)
            &&& room(moved.fibers)
            &&& queue_valid(moved, emitted(next.fibers, next.fibers.len()))
            &&& continues(s.fibers, moved.fibers)
        }),
{
    let next = reassigned(s, providers);
    reassigned_keeps(s, providers);
    settling_keeps(next);
    assert(continues(s.fibers, next.fibers));
    reconciled_continues(next);
    continues_twice(s.fibers, next.fibers, reconciled(next.fibers));
}

proof fn configured_keeps(
    s: SupervisorModel,
    fiber: FiberId,
    context: ContextModel,
    injects: Seq<InjectModel>,
)
    requires
        valid(s),
        generations_left(s.fibers),
        configure_error(s, fiber, context, injects) is None,
    ensures
        valid(reconfigured(s, fiber, context, injects)),
        room(reconfigured(s, fiber, context, injects).fibers),
        queue_valid(
            reconfigured(s, fiber, context, injects),
            reconfigured_work(s, fiber, context, injects),
        ),
        continues(s.fibers, reconfigured(s, fiber, context, injects).fibers),
{
    let none = Seq::<TransitionModel>::empty();
    let i = index_of(s.fibers, fiber);
    assert(fiber_at(s.fibers, fiber, i));
    assert(record_valid(s.fibers[i], s.next_fiber));
    first_index_is_first(injects.len(), realm_missing(context.realms, injects));
    let next = declared(s, fiber, context, injects);
    assert(queue_valid(s, none));
    replaced_keeps(s, none, i, next.fibers[i]);
    settling_keeps(next);
    assert(continues(s.fibers, next.fibers));
    reconciled_continues(next);
    let moved = SupervisorModel { fibers: reconciled(next.fibers), ..next };
    let queue = emitted(next.fibers, next.fibers.len());
    continues_twice(s.fibers, next.fibers, moved.fibers);
    assert(queue + none =~= queue);
    if s.fibers[i].machine.state is Failed {
        let after = reconfigured(s, fiber, context, injects);
        let m = moved.fibers[i].machine;
        assert(record_valid(moved.fibers[i], moved.next_fiber));
        assert(record_current(moved.fibers[i], moved.providers));
        if m.state is Failed {
            restart_keeps_valid(m);
            idle_is_free(moved, queue, i);
        }
        replaced_keeps(moved, queue, i, after.fibers[i]);
        if restart_kind(m) is Some {
            let t = next_transition(m, restart_kind(m)->Some_0);
            assert(queue + as_queue(restart_transition(m)) =~= queue.push(t));
        }
        assert(continues(moved.fibers, after.fibers));
        continues_twice(s.fibers, moved.fibers, after.fibers);
    }
}

proof fn completed_keeps(
    s: SupervisorModel,
    fiber: FiberId,
    generation: u64,
    result: Result<(), ErrorModel>,
)
    requires
        valid(s),
        generations_left(s.fibers),
        complete_error(s, fiber) is None,
    ensures
        valid(completion_state(s, fiber, generation, result)),
        room(completion_state(s, fiber, generation, result).fibers),
        queue_valid(
            completion_state(s, fiber, generation, result),
            completion_work(s, fiber, generation, result),
        ),
        continues(s.fibers, completion_state(s, fiber, generation, result).fibers),
{
    let none = Seq::<TransitionModel>::empty();
    let i = index_of(s.fibers, fiber);
    assert(fiber_at(s.fibers, fiber, i));
    let r = s.fibers[i];
    assert(record_valid(r, s.next_fiber));
    assert(record_current(r, s.providers));
    completion_keeps_valid(r.machine, generation, result);
    let next = advanced(s, fiber, generation, result);
    let started_now = advance_transition(completed(r.machine, generation, result).1);
    let first = as_queue(started_now);
    assert(queue_valid(s, none));
    replaced_keeps(s, none, i, next.fibers[i]);
    match started_now {
        Some(t) => {
            assert(first =~= none.push(t));
        },
        None => {
            assert(first =~= none);
        },
    }
    assert(queue_valid(next, first));
    assert(first + none =~= first);
    assert(continues(s.fibers, next.fibers));
    if load_failed(r.machine, generation, result) {
        withdrawn_keeps(next, fiber, first);
        withdrawn_continues(next, fiber);
        continues_twice(s.fibers, next.fibers, withdrawn(next, fiber).fibers);
    }
}

proof fn retired_keeps(s: SupervisorModel, fiber: FiberId)
    requires
        valid(s),
        generations_left(s.fibers),
        known(s.fibers, fiber),
    ensures
        valid(withdrawn(marked(s, fiber), fiber)),
        room(withdrawn(marked(s, fiber), fiber).fibers),
        queue_valid(withdrawn(marked(s, fiber), fiber), retirement_work(s, fiber)),
        continues(s.fibers, withdrawn(marked(s, fiber), fiber).fibers),
        withdrawn(marked(s, fiber), fiber).fibers[index_of(s.fibers, fiber)].retired,
{
    let none = Seq::<TransitionModel>::empty();
    let i = index_of(s.fibers, fiber);
    assert(fiber_at(s.fibers, fiber, i));
    let r = s.fibers[i];
    assert(record_valid(r, s.next_fiber));
    assert(record_current(r, s.providers));
    let next = marked(s, fiber);
    let own = as_queue(desired_transition(r.machine, DesiredModel::Retired));
    desired_keeps_valid(r.machine, DesiredModel::Retired);
    assert(queue_valid(s, none));
    if r.machine.active is None {
        idle_is_free(s, none, i);
    }
    replaced_keeps(s, none, i, next.fibers[i]);
    match desired_transition(r.machine, DesiredModel::Retired) {
        Some(t) => {
            assert(own =~= none.push(t));
        },
        None => {
            assert(own =~= none);
        },
    }
    assert(queue_valid(next, own));
    withdrawn_keeps(next, fiber, own);
    queue_swapped(withdrawn(next, fiber), own, withdrawn_work(next, fiber));
    withdrawn_continues(next, fiber);
    assert(continues(s.fibers, next.fibers));
    continues_twice(s.fibers, next.fibers, withdrawn(next, fiber).fibers);
    assert(outlasts(next.fibers[i], withdrawn(next, fiber).fibers[i]));
}

// ---------------------------------------------------------------------------------------------
// Laws
// ---------------------------------------------------------------------------------------------

/// Whatever the command, a sound state stays sound.
pub proof fn commands_keep_the_graph_valid(s: SupervisorModel, command: CommandModel)
    requires
        valid(s),
        affordable(s, command),
    ensures
        valid(obeyed(s, command)),
{
    if refusal(s, command) is None {
        match unscheduled(s, command) {
            Some((next, queue)) => {
                unscheduled_keeps(s, command);
                scheduled_keeps(next, queue);
            },
            None => match command {
                CommandModel::CreateFiber { parent, .. } => {
                    creation_keeps(s, parent);
                },
                CommandModel::CommitDependencies { fiber } => {
                    let i = index_of(s.fibers, fiber);
                    assert(fiber_at(s.fibers, fiber, i));
                    commit_keeps(s, i, Some(s.fibers[i].desired));
                },
                _ => {},
            },
        }
    }
}

/// Whatever the command, it lets a fiber unload only when no fiber that was loaded against it
/// is still up; the unloads that keep waiting are those with such a consumer left.
pub proof fn consumers_leave_first(s: SupervisorModel, command: CommandModel)
    requires
        valid(s),
        affordable(s, command),
        refusal(s, command) is None,
        unscheduled(s, command) is Some,
    ensures
        consumers_first(obeyed(s, command), work(s, command)),
{
    let (next, queue) = unscheduled(s, command)->Some_0;
    unscheduled_keeps(s, command);
    scheduled_keeps(next, queue);
}

/// Whatever the command, an unload of a fiber is handed out only when no fiber that is active,
/// or whose load or unload still runs, was loaded against it. An unload that is started or kept
/// waiting and not handed out has such a fiber to wait for.
pub proof fn unloads_are_handed_out_without_consumers(
    s: SupervisorModel,
    command: CommandModel,
    t: TransitionModel,
)
    requires
        valid(s),
        affordable(s, command),
        t.kind is Unload,
    ensures
        work(s, command).contains(t) ==> forall|i: int, e: int|
            {
                let after = obeyed(s, command).fibers;
                0 <= i < after.len() && (after[i].machine.active is Some
                    || after[i].machine.state is Active) && after[i].committed is Some && 0 <= e
                    < after[i].committed->Some_0.len() ==> (
                #[trigger] obeyed(s, command).fibers[i].committed->Some_0[e]).provider != Some(
                    t.fiber,
                )
            },
        refusal(s, command) is None && unscheduled(s, command) is Some && obeyed(
            s,
            command,
        ).blocked.contains(t) ==> exists|i: int, e: int|
            {
                let after = obeyed(s, command).fibers;
                0 <= i < after.len() && (after[i].machine.active is Some
                    || after[i].machine.state is Active) && after[i].committed is Some && 0 <= e
                    < after[i].committed->Some_0.len() && (
                #[trigger] obeyed(s, command).fibers[i].committed->Some_0[e]).provider == Some(
                    t.fiber,
                )
            },
{
    let after = obeyed(s, command);
    commands_keep_the_graph_valid(s, command);
    if refusal(s, command) is None && unscheduled(s, command) is Some {
        consumers_leave_first(s, command);
        if work(s, command).contains(t) {
            let k = choose|k: int| 0 <= k < work(s, command).len() && work(s, command)[k] == t;
            assert(!consumed(after.fibers, work(s, command)[k].fiber));
            assert forall|i: int, e: int|
                0 <= i < after.fibers.len() && (after.fibers[i].machine.active is Some
                    || after.fibers[i].machine.state is Active) && after.fibers[i].committed is Some
                    && 0 <= e < after.fibers[i].committed->Some_0.len() implies (
            #[trigger] after.fibers[i].committed->Some_0[e]).provider != Some(t.fiber) by {
                assert(record_valid(after.fibers[i], after.next_fiber));
                assert(!consumes(after.fibers[i], t.fiber));
            }
        }
        if after.blocked.contains(t) {
            let k = choose|k: int| 0 <= k < after.blocked.len() && after.blocked[k] == t;
            assert(consumed(after.fibers, after.blocked[k].fiber));
            let i = choose|i: int|
                0 <= i < after.fibers.len() && consumes(#[trigger] after.fibers[i], t.fiber);
            assert(record_valid(after.fibers[i], after.next_fiber));
            let e = choose|e: int|
                0 <= e < after.fibers[i].committed->Some_0.len()
                    && #[trigger] after.fibers[i].committed->Some_0[e].provider == Some(t.fiber);
            assert(after.fibers[i].committed->Some_0[e].provider == Some(t.fiber));
        }
    }
}

/// A refused command changes nothing and starts nothing.
pub proof fn refused_commands_change_nothing(s: SupervisorModel, command: CommandModel)
    requires
        refusal(s, command) is Some,
    ensures
        obeyed(s, command) == s,
        work(s, command) == Seq::<TransitionModel>::empty(),
{
}

/// Whatever the command, no fiber is forgotten or changes its parent, a retired fiber stays
/// retired, a disposed fiber stays disposed and no generation is used again.
pub proof fn fibers_outlast_commands(s: SupervisorModel, command: CommandModel)
    requires
        valid(s),
        affordable(s, command),
    ensures
        continues(s.fibers, obeyed(s, command).fibers),
{
    if refusal(s, command) is None {
        match unscheduled(s, command) {
            Some((next, queue)) => {
                unscheduled_keeps(s, command);
                drained_continues(next, queue, Seq::empty());
                continues_twice(s.fibers, next.fibers, scheduled(next, queue).fibers);
            },
            None => match command {
                CommandModel::CommitDependencies { fiber } => {
                    let i = index_of(s.fibers, fiber);
                    assert(fiber_at(s.fibers, fiber, i));
                },
                _ => {},
            },
        }
    }
}

/// A fiber that was told to retire is retired from then on.
pub proof fn retirement_takes_effect(s: SupervisorModel, fiber: FiberId)
    requires
        valid(s),
        generations_left(s.fibers),
        known(s.fibers, fiber),
    ensures
        obeyed(s, CommandModel::RetireFiber { fiber }).fibers[index_of(s.fibers, fiber)].retired,
{
    let command = CommandModel::RetireFiber { fiber };
    let i = index_of(s.fibers, fiber);
    assert(fiber_at(s.fibers, fiber, i));
    retired_keeps(s, fiber);
    let (next, queue) = unscheduled(s, command)->Some_0;
    drained_continues(next, queue, Seq::empty());
    assert(outlasts(next.fibers[i], scheduled(next, queue).fibers[i]));
}

/// The state after commands one after another.
pub open spec fn obeyed_all(s: SupervisorModel, commands: Seq<CommandModel>) -> SupervisorModel
    decreases commands.len(),
{
    if commands.len() == 0 {
        s
    } else {
        obeyed(obeyed_all(s, commands.drop_last()), commands.last())
    }
}

/// Each command finds the identifiers and generations that it may draw.
pub open spec fn affordable_all(s: SupervisorModel, commands: Seq<CommandModel>) -> bool
    decreases commands.len(),
{
    commands.len() == 0 || affordable_all(s, commands.drop_last()) && affordable(
        obeyed_all(s, commands.drop_last()),
        commands.last(),
    )
}

/// Whatever commands come in whatever order, the state stays sound and no fiber, retirement or
/// disposal is undone.
pub proof fn histories_keep_the_graph_valid(s: SupervisorModel, commands: Seq<CommandModel>)
    requires
        valid(s),
        affordable_all(s, commands),
    ensures
        valid(obeyed_all(s, commands)),
        continues(s.fibers, obeyed_all(s, commands).fibers),
    decreases commands.len(),
{
    if commands.len() > 0 {
        let before = obeyed_all(s, commands.drop_last());
        histories_keep_the_graph_valid(s, commands.drop_last());
        commands_keep_the_graph_valid(before, commands.last());
        fibers_outlast_commands(before, commands.last());
        continues_twice(s.fibers, before.fibers, obeyed(before, commands.last()).fibers);
    }
}

} // verus!
