use cordis::context::Context;
use cordis::dynamic::{
    mount_context, replace_mode, settled_outcome, waits_for_dependencies, ActivePoll, CallGate,
    CallOwner, DynamicFiberState, EventReply, GateTurn, LoadStep, MountStep, RegistrationRequest,
    ReplaceMode,
};
use cordis::error::CordisError;
use cordis::fiber::{FiberState, FiberTransition, TransitionKind};
use cordis::id::{FiberId, IdSource};
use cordis::native::{EventId, EventMode};
use cordis::service::ServiceId;
use cordis::supervisor::SupervisorState;

#[derive(Clone, Copy)]
struct Factory {
    at: usize,
    fails: bool,
}

#[derive(Default, Clone, Debug, PartialEq)]
struct Counts {
    activations: usize,
    deactivations: usize,
    disposals: usize,
}

/// A mounted component whose transitions run at once.
struct Mounted {
    supervisor: SupervisorState,
    fiber: FiberId,
    state: DynamicFiberState,
    factory: Factory,
    active: Option<Factory>,
    counts: Vec<Counts>,
}

impl Mounted {
    fn mount(factory: Factory) -> Mounted {
        let mut supervisor = SupervisorState::new(IdSource::new(), IdSource::new());
        let fiber = supervisor.create_fiber(None, false).unwrap();
        let mut mounted = Mounted {
            supervisor,
            fiber,
            state: DynamicFiberState::new(),
            factory,
            active: None,
            counts: vec![Counts::default(); 3],
        };
        let change = mounted
            .supervisor
            .configure_dependencies(fiber, Context::root(fiber), Vec::new())
            .unwrap();
        mounted.run(change.transitions);
        mounted
    }

    fn run(&mut self, transitions: Vec<FiberTransition>) {
        let mut queue = transitions;
        while let Some(transition) = queue.pop() {
            let result = match transition.kind {
                TransitionKind::Load { .. } => self.load(),
                TransitionKind::Unload => self.unload(),
            };
            let update = self
                .supervisor
                .complete_transition(transition.fiber, transition.generation, result)
                .unwrap();
            queue.extend(update.ready);
        }
    }

    fn load(&mut self) -> Result<(), CordisError> {
        self.supervisor.commit_dependencies(self.fiber)?;
        let revision = self.state.begin_load()?;
        let factory = self.factory;
        let mut step = LoadStep::Instantiate;
        let result = loop {
            step = match step {
                LoadStep::Instantiate => LoadStep::Instantiate.after(Ok(())),
                LoadStep::Activate => {
                    self.counts[factory.at].activations += 1;
                    LoadStep::Activate.after(if factory.fails {
                        Err(CordisError::ComponentFailed {
                            component: "fixture".to_owned(),
                            message: "activation rejected".to_owned(),
                        })
                    } else {
                        Ok(())
                    })
                }
                LoadStep::Deactivate(error) => {
                    self.counts[factory.at].deactivations += 1;
                    LoadStep::Deactivate(error).after(Ok(()))
                }
                LoadStep::Dispose(error) => {
                    self.counts[factory.at].disposals += 1;
                    LoadStep::Dispose(error).after(Ok(()))
                }
                LoadStep::Finish(result) => break result,
            };
        };
        if result.is_ok() {
            self.active = Some(factory);
        }
        self.state.finish_load(revision, result)
    }

    fn unload(&mut self) -> Result<(), CordisError> {
        if !self.state.begin_unload() {
            return Ok(());
        }
        let factory = self.active.take().unwrap();
        self.counts[factory.at].deactivations += 1;
        self.counts[factory.at].disposals += 1;
        self.state.finish_unload(Ok(()), Ok(()))
    }

    fn outcome(&mut self, revision: u64) -> Result<(), CordisError> {
        assert!(self.state.is_settled(revision));
        let load_error = self.state.load_error.as_ref().map(|error| error.duplicate());
        let snapshot = self.supervisor.snapshot();
        let fiber = snapshot.fiber(self.fiber)?;
        let failure = fiber.failure.as_ref().map(|error| error.duplicate());
        settled_outcome(self.fiber, load_error, failure, fiber.state)
    }

    fn replace(&mut self, factory: Factory) -> Result<(), CordisError> {
        let state = self.supervisor.snapshot().fiber(self.fiber)?.state;
        let mode = replace_mode(self.fiber, state)?;
        let (_, revision) = self.state.begin_replace();
        self.factory = factory;
        let ready = match mode {
            ReplaceMode::Reload => self.supervisor.reload_fiber(self.fiber)?,
            ReplaceMode::Restart => self.supervisor.restart_fiber(self.fiber)?,
        };
        self.run(ready);
        self.outcome(revision)
    }

    fn retire(&mut self) -> Result<(), CordisError> {
        let ready = self.supervisor.retire_fiber(self.fiber)?;
        self.run(ready);
        self.state.retired()
    }
}

#[test]
fn dynamic_component_uses_supervisor_lifecycle_and_effect_cleanup() {
    let first = Factory { at: 0, fails: false };
    let mut mounted = Mounted::mount(first);
    assert_eq!(mounted.state.poll_active(0), ActivePoll::Settled);
    mounted.outcome(0).unwrap();
    mounted.state.require_active(mounted.fiber).unwrap();

    let second = Factory { at: 1, fails: false };
    mounted.replace(second).unwrap();
    assert_eq!(mounted.counts[0].activations, 1);
    assert_eq!(mounted.counts[0].deactivations, 1);
    assert_eq!(mounted.counts[0].disposals, 1);
    assert_eq!(mounted.counts[1].activations, 1);

    mounted.retire().unwrap();
    assert_eq!(mounted.counts[1].deactivations, 1);
    assert_eq!(mounted.counts[1].disposals, 1);
    assert_eq!(
        mounted.supervisor.snapshot().fibers[0].state,
        FiberState::Disposed
    );
    assert_eq!(
        mounted.state.require_active(mounted.fiber),
        Err(CordisError::InactiveFiber {
            fiber: mounted.fiber
        })
    );
    assert_eq!(
        mounted.replace(first),
        Err(CordisError::InactiveFiber {
            fiber: mounted.fiber
        })
    );
}

#[test]
fn failed_replacement_is_cleaned_and_can_be_rolled_back() {
    let original = Factory { at: 0, fails: false };
    let mut mounted = Mounted::mount(original);
    mounted.outcome(0).unwrap();

    let failing = Factory { at: 1, fails: true };
    assert!(matches!(
        mounted.replace(failing),
        Err(CordisError::ComponentFailed { .. })
    ));
    assert_eq!(mounted.counts[1].activations, 1);
    assert_eq!(mounted.counts[1].deactivations, 1);
    assert_eq!(mounted.counts[1].disposals, 1);

    mounted.replace(original).unwrap();
    assert_eq!(mounted.counts[0].activations, 2);
    mounted.retire().unwrap();
}

#[test]
fn same_task_reentry_is_rejected_without_deadlock() {
    let mut gate = CallGate::new();
    let fiber = FiberId(1);
    let owner = CallOwner {
        task: Some(4),
        thread: 1,
    };
    let other = CallOwner {
        task: Some(5),
        thread: 1,
    };
    assert_eq!(gate.acquire(owner, fiber), Ok(GateTurn::Entered));
    assert_eq!(
        gate.acquire(owner, fiber),
        Err(CordisError::ReentrantCall { fiber })
    );
    assert_eq!(gate.acquire(other, fiber), Ok(GateTurn::Wait));
    gate.release();
    assert_eq!(gate.acquire(owner, fiber), Ok(GateTurn::Entered));
}

#[test]
fn an_unload_error_fails_the_next_load_once() {
    let mut state = DynamicFiberState::new();
    let revision = state.begin_load().unwrap();
    state.finish_load(revision, Ok(())).unwrap();
    assert!(state.begin_unload());
    assert_eq!(
        state.finish_unload(Ok(()), Err(CordisError::RuntimeClosed)),
        Err(CordisError::RuntimeClosed)
    );
    assert_eq!(state.begin_load(), Err(CordisError::RuntimeClosed));
    assert_eq!(state.load_error, Some(CordisError::RuntimeClosed));
    assert_eq!(state.begin_load(), Ok(0));
    assert_eq!(state.retired(), Ok(()));
}

#[test]
fn revisions_count_up_and_can_be_taken_back() {
    let mut state = DynamicFiberState::new();
    assert_eq!(state.poll_active(0), ActivePoll::Inspect);
    assert_eq!(state.begin_replace(), (0, 1));
    state.undo_replace(0);
    assert_eq!(state.revision, 0);
    state.revision = u64::MAX;
    assert_eq!(state.begin_replace(), (u64::MAX, u64::MAX));
}

#[test]
fn a_fiber_waiting_for_providers_is_inactive() {
    let fiber = FiberId(3);
    assert_eq!(
        waits_for_dependencies(fiber, FiberState::Pending, false),
        Err(CordisError::InactiveFiber { fiber })
    );
    assert_eq!(waits_for_dependencies(fiber, FiberState::Pending, true), Ok(()));
    assert_eq!(waits_for_dependencies(fiber, FiberState::Loading, false), Ok(()));
}

#[test]
fn registrations_are_labelled_after_what_they_register() {
    let service = ServiceId::new("app.db".to_owned(), [0; 32]);
    assert_eq!(RegistrationRequest::Provide(service).label(), "provide:app.db");
    let listen = RegistrationRequest::Listen {
        event: EventId::new("app.started".to_owned(), [1; 32]),
        listener_id: 1,
        mode: EventMode::Serial,
    };
    assert_eq!(listen.label(), "listen:app.started");
    assert_eq!(EventReply::Break(vec![1, 2]).payload(), &vec![1, 2]);
}

#[test]
fn refused_mounts_take_their_fiber_down() {
    let fiber = FiberId(7);
    let refusal = CordisError::MissingMethodRuntime;
    let step = MountStep::Create.after(Ok(fiber));
    assert_eq!(step, MountStep::Install(fiber));
    let step = step.after(Ok(fiber));
    assert_eq!(step, MountStep::Configure(fiber));
    let step = step.after(Err(refusal.duplicate()));
    assert_eq!(step, MountStep::Retire(fiber, refusal.duplicate()));
    let step = step.after(Err(CordisError::RuntimeClosed));
    assert_eq!(step, MountStep::AwaitDisposed(fiber, refusal.duplicate()));
    let step = step.after(Err(CordisError::RuntimeClosed));
    assert_eq!(step, MountStep::Uninstall(fiber, refusal.duplicate()));
    assert_eq!(step.after(Ok(fiber)), MountStep::Failed(refusal));
    assert_eq!(
        MountStep::Configure(fiber).after(Ok(fiber)),
        MountStep::Done(fiber)
    );
    assert_eq!(
        MountStep::Create.after(Err(CordisError::RuntimeClosed)),
        MountStep::Failed(CordisError::RuntimeClosed)
    );
}

#[test]
fn mounts_extend_the_context_they_are_given() {
    let service = ServiceId::new("log".to_owned(), [0; 32]);
    let realm = SupervisorState::new(IdSource::new(), IdSource::new()).allocate_realm();
    let base = Context::root(FiberId(1)).isolate(service.clone(), realm);
    let context = mount_context(Some(&base), FiberId(2));
    assert_eq!(context.fiber(), FiberId(2));
    assert_eq!(context.resolve_realm(&service), Ok(realm));
    assert_eq!(
        mount_context(None, FiberId(2)),
        Context::root(FiberId(2))
    );
}
