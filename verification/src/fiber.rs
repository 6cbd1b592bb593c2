//! The lifecycle state machine behind one fiber.
use crate::error::{view_error, CordisError, ErrorModel};
use crate::id::FiberId;
use crate::service::{
    ready, same_fiber, DependencyResolution, ProviderKey, ProviderKeyModel, ResolvedModel,
};
use crate::text::{group_views, view_option, views};
use vstd::prelude::*;

verus! {

broadcast use group_views;

/// Stable lifecycle state visible to diagnostics and waiters.
#[derive(Clone, Copy, Debug, PartialEq, Eq, Structural)]
pub enum FiberState {
    Pending,
    Loading,
    Active,
    Failed,
    Unloading,
    Disposed,
}

/// A slot and the provider selected for it.
pub struct EpochEntryModel {
    pub key: ProviderKeyModel,
    pub provider: Option<FiberId>,
}

/// One provider selection of a desired epoch.
#[derive(Clone, Debug, PartialEq, Eq)]
pub struct EpochEntry {
    pub key: ProviderKey,
    pub provider: Option<FiberId>,
}

impl View for EpochEntry {
    type V = EpochEntryModel;

    open spec fn view(&self) -> EpochEntryModel {
        EpochEntryModel { key: self.key@, provider: self.provider }
    }
}

/// The provider selections of a resolution, in order.
pub open spec fn epoch_of(entries: Seq<ResolvedModel>) -> Seq<EpochEntryModel> {
    Seq::new(
        entries.len(),
        |i: int| EpochEntryModel { key: entries[i].key, provider: entries[i].provider },
    )
}

/// Ordered provider selection for one load attempt.
#[derive(Clone, Debug, PartialEq, Eq)]
pub struct DesiredEpoch {
    pub entries: Vec<EpochEntry>,
}

impl View for DesiredEpoch {
    type V = Seq<EpochEntryModel>;

    open spec fn view(&self) -> Seq<EpochEntryModel> {
        views(self.entries@)
    }
}

impl DesiredEpoch {
    /// The epoch of a resolution, once every required dependency has a provider.
    pub fn from_resolution(resolution: &DependencyResolution) -> (r: Option<DesiredEpoch>)
        ensures
            r is Some <==> ready(resolution@),
            r matches Some(epoch) ==> epoch@ == epoch_of(resolution@),
    {
        if !resolution.is_ready() {
            return None;
        }
        let mut entries: Vec<EpochEntry> = Vec::new();
        let mut i: usize = 0;
        while i < resolution.entries.len()
            invariant
                i <= resolution.entries.len(),
                entries.len() == i,
                forall|j: int|
                    0 <= j < i ==> (#[trigger] entries@[j])@ == epoch_of(resolution@)[j],
            decreases resolution.entries.len() - i,
        {
            let entry = &resolution.entries[i];
            entries.push(EpochEntry { key: entry.key.duplicate(), provider: entry.provider });
            i = i + 1;
        }
        let epoch = DesiredEpoch { entries };
        proof {
            assert(epoch@ =~= epoch_of(resolution@));
        }
        Some(epoch)
    }

    pub fn entries(&self) -> (r: &Vec<EpochEntry>)
        ensures
            views(r@) == self@,
    {
        &self.entries
    }

    pub fn same(&self, other: &DesiredEpoch) -> (r: bool)
        ensures
            r == (self@ == other@),
    {
        if self.entries.len() != other.entries.len() {
            proof {
                assert(self@.len() != other@.len());
            }
            return false;
        }
        let mut i: usize = 0;
        while i < self.entries.len()
            invariant
                i <= self.entries.len(),
                self.entries.len() == other.entries.len(),
                forall|j: int| 0 <= j < i ==> self@[j] == other@[j],
            decreases self.entries.len() - i,
        {
            let a = &self.entries[i];
            let b = &other.entries[i];
            if !(a.key.same(&b.key) && same_fiber(a.provider, b.provider)) {
                proof {
                    assert(self@[i as int] != other@[i as int]);
                }
                return false;
            }
            i = i + 1;
        }
        proof {
            assert(self@ =~= other@);
        }
        true
    }

    pub fn duplicate(&self) -> (r: DesiredEpoch)
        ensures
            r@ == self@,
    {
        let mut entries: Vec<EpochEntry> = Vec::new();
        let mut i: usize = 0;
        while i < self.entries.len()
            invariant
                i <= self.entries.len(),
                entries.len() == i,
                forall|j: int| 0 <= j < i ==> (#[trigger] entries@[j])@ == self@[j],
            decreases self.entries.len() - i,
        {
            let entry = &self.entries[i];
            entries.push(EpochEntry { key: entry.key.duplicate(), provider: entry.provider });
            i = i + 1;
        }
        let r = DesiredEpoch { entries };
        proof {
            assert(r@ =~= self@);
        }
        r
    }
}

/// The latest lifecycle target.
pub enum DesiredModel {
    Waiting,
    Ready(Seq<EpochEntryModel>),
    Retired,
}

/// Latest lifecycle target. Changes coalesce while a transition is running.
#[derive(Clone, Debug, PartialEq, Eq)]
pub enum DesiredState {
    Waiting,
    Ready(DesiredEpoch),
    Retired,
}

impl View for DesiredState {
    type V = DesiredModel;

    open spec fn view(&self) -> DesiredModel {
        match self {
            DesiredState::Waiting => DesiredModel::Waiting,
            DesiredState::Ready(epoch) => DesiredModel::Ready(epoch@),
            DesiredState::Retired => DesiredModel::Retired,
        }
    }
}

/// What a transition does.
pub enum KindModel {
    Load { epoch: Seq<EpochEntryModel> },
    Unload,
}

#[derive(Clone, Debug, PartialEq, Eq)]
pub enum TransitionKind {
    Load { epoch: DesiredEpoch },
    Unload,
}

impl View for TransitionKind {
    type V = KindModel;

    open spec fn view(&self) -> KindModel {
        match self {
            TransitionKind::Load { epoch } => KindModel::Load { epoch: epoch@ },
            TransitionKind::Unload => KindModel::Unload,
        }
    }
}

impl TransitionKind {
    pub fn duplicate(&self) -> (r: TransitionKind)
        ensures
            r@ == self@,
    {
        match self {
            TransitionKind::Load { epoch } => TransitionKind::Load { epoch: epoch.duplicate() },
            TransitionKind::Unload => TransitionKind::Unload,
        }
    }
}

/// One piece of lifecycle work.
pub struct TransitionModel {
    pub fiber: FiberId,
    pub generation: u64,
    pub kind: KindModel,
}

/// Work that must run outside the supervisor.
#[derive(Clone, Debug, PartialEq, Eq)]
pub struct FiberTransition {
    pub fiber: FiberId,
    pub generation: u64,
    pub kind: TransitionKind,
}

impl View for FiberTransition {
    type V = TransitionModel;

    open spec fn view(&self) -> TransitionModel {
        TransitionModel { fiber: self.fiber, generation: self.generation, kind: self.kind@ }
    }
}

impl FiberTransition {
    pub fn duplicate(&self) -> (r: FiberTransition)
        ensures
            r@ == self@,
    {
        FiberTransition {
            fiber: self.fiber,
            generation: self.generation,
            kind: self.kind.duplicate(),
        }
    }
}

/// What a completion led to.
pub enum AdvanceModel {
    IgnoredStale,
    Settled,
    Start(TransitionModel),
}

/// Result of applying a transition completion to the current machine generation.
#[derive(Clone, Debug, PartialEq, Eq)]
pub enum TransitionAdvance {
    IgnoredStale,
    Settled,
    Start(FiberTransition),
}

impl View for TransitionAdvance {
    type V = AdvanceModel;

    open spec fn view(&self) -> AdvanceModel {
        match self {
            TransitionAdvance::IgnoredStale => AdvanceModel::IgnoredStale,
            TransitionAdvance::Settled => AdvanceModel::Settled,
            TransitionAdvance::Start(transition) => AdvanceModel::Start(transition@),
        }
    }
}

/// The whole state of one lifecycle.
pub struct MachineModel {
    pub fiber: FiberId,
    pub state: FiberState,
    pub desired: DesiredModel,
    pub active: Option<TransitionModel>,
    pub loaded_epoch: Option<Seq<EpochEntryModel>>,
    pub next_generation: u64,
    pub failure: Option<ErrorModel>,
    pub teardown_error: Option<ErrorModel>,
}

/// State machine behind one supervisor-owned fiber record.
#[derive(Debug)]
pub struct FiberMachine {
    pub fiber: FiberId,
    pub state: FiberState,
    pub desired: DesiredState,
    pub active: Option<FiberTransition>,
    pub loaded_epoch: Option<DesiredEpoch>,
    pub next_generation: u64,
    pub failure: Option<CordisError>,
    pub teardown_error: Option<CordisError>,
}

impl View for FiberMachine {
    type V = MachineModel;

    open spec fn view(&self) -> MachineModel {
        MachineModel {
            fiber: self.fiber,
            state: self.state,
            desired: self.desired@,
            active: view_option(self.active),
            loaded_epoch: view_option(self.loaded_epoch),
            next_generation: self.next_generation,
            failure: view_error(self.failure),
            teardown_error: view_error(self.teardown_error),
        }
    }
}

/// A machine that was just created.
pub open spec fn fresh_machine(fiber: FiberId) -> MachineModel {
    MachineModel {
        fiber,
        state: FiberState::Pending,
        desired: DesiredModel::Waiting,
        active: None,
        loaded_epoch: None,
        next_generation: 1,
        failure: None,
        teardown_error: None,
    }
}

/// The transition that work of this kind would be given now.
pub open spec fn next_transition(m: MachineModel, kind: KindModel) -> TransitionModel {
    TransitionModel { fiber: m.fiber, generation: m.next_generation, kind }
}

/// The machine once work of this kind has been started.
pub open spec fn started(m: MachineModel, kind: KindModel) -> MachineModel {
    MachineModel {
        state: if kind is Load {
            FiberState::Loading
        } else {
            FiberState::Unloading
        },
        active: Some(next_transition(m, kind)),
        next_generation: (m.next_generation + 1) as u64,
        ..m
    }
}

/// The work an idle machine starts for its current target, if any.
pub open spec fn due(m: MachineModel) -> Option<KindModel> {
    if m.active is Some {
        None
    } else if m.state is Pending {
        match m.desired {
            DesiredModel::Ready(epoch) => Some(KindModel::Load { epoch }),
            _ => None,
        }
    } else if m.state is Active && !(m.desired is Ready && m.loaded_epoch == Some(
        m.desired->Ready_0,
    )) {
        Some(KindModel::Unload)
    } else {
        None
    }
}

/// A new target: starts due work, and disposes a machine that never has to unload.
pub open spec fn with_desired(m: MachineModel, desired: DesiredModel) -> MachineModel {
    let m = MachineModel { desired, ..m };
    match due(m) {
        Some(kind) => started(m, kind),
        None => if m.active is None && desired is Retired && (m.state is Pending
            || m.state is Failed) {
            MachineModel { state: FiberState::Disposed, ..m }
        } else {
            m
        },
    }
}

/// The transition returned for a new target.
pub open spec fn desired_transition(m: MachineModel, desired: DesiredModel) -> Option<
    TransitionModel,
> {
    let m = MachineModel { desired, ..m };
    match due(m) {
        Some(kind) => Some(next_transition(m, kind)),
        None => None,
    }
}

/// The completion names the running transition.
pub open spec fn current_generation(m: MachineModel, generation: u64) -> bool {
    m.active is Some && m.active->Some_0.generation == generation
}

/// A load finished: a failure is kept, a load of the wanted epoch becomes active and any
/// other load is undone at once.
pub open spec fn load_completed(
    m: MachineModel,
    epoch: Seq<EpochEntryModel>,
    result: Result<(), ErrorModel>,
) -> (MachineModel, AdvanceModel) {
    match result {
        Err(error) => (
            MachineModel { failure: Some(error), state: FiberState::Failed, ..m },
            AdvanceModel::Settled,
        ),
        Ok(_) => {
            let m = MachineModel { loaded_epoch: Some(epoch), ..m };
            if m.desired == DesiredModel::Ready(epoch) {
                (MachineModel { state: FiberState::Active, ..m }, AdvanceModel::Settled)
            } else {
                (
                    started(m, KindModel::Unload),
                    AdvanceModel::Start(next_transition(m, KindModel::Unload)),
                )
            }
        },
    }
}

/// An unload finished: its error is only recorded, and the latest target decides what follows.
pub open spec fn unload_completed(m: MachineModel, result: Result<(), ErrorModel>) -> (
    MachineModel,
    AdvanceModel,
) {
    let m = MachineModel {
        teardown_error: match result {
            Err(error) => Some(error),
            Ok(_) => None,
        },
        loaded_epoch: None,
        ..m
    };
    match m.desired {
        DesiredModel::Waiting => (
            MachineModel { state: FiberState::Pending, ..m },
            AdvanceModel::Settled,
        ),
        DesiredModel::Ready(epoch) => (
            started(m, KindModel::Load { epoch }),
            AdvanceModel::Start(next_transition(m, KindModel::Load { epoch })),
        ),
        DesiredModel::Retired => (
            MachineModel { state: FiberState::Disposed, ..m },
            AdvanceModel::Settled,
        ),
    }
}

/// Everything a completion does. A completion of any other generation changes nothing.
pub open spec fn completed(
    m: MachineModel,
    generation: u64,
    result: Result<(), ErrorModel>,
) -> (MachineModel, AdvanceModel) {
    if !current_generation(m, generation) {
        (m, AdvanceModel::IgnoredStale)
    } else {
        let idle = MachineModel { active: None, ..m };
        match m.active->Some_0.kind {
            KindModel::Load { epoch } => load_completed(idle, epoch, result),
            KindModel::Unload => unload_completed(idle, result),
        }
    }
}

/// The work an explicit retry starts.
pub open spec fn restart_kind(m: MachineModel) -> Option<KindModel> {
    if m.state is Failed && m.desired is Ready {
        Some(KindModel::Load { epoch: m.desired->Ready_0 })
    } else {
        None
    }
}

/// The machine after an explicit retry. Only a failed machine is affected.
pub open spec fn restarted(m: MachineModel) -> MachineModel {
    if !(m.state is Failed) {
        m
    } else {
        let m = MachineModel { failure: None, ..m };
        match m.desired {
            DesiredModel::Waiting => MachineModel { state: FiberState::Pending, ..m },
            DesiredModel::Ready(epoch) => started(m, KindModel::Load { epoch }),
            DesiredModel::Retired => MachineModel { state: FiberState::Disposed, ..m },
        }
    }
}

/// Whether a forced reload applies.
pub open spec fn reloadable(m: MachineModel) -> bool {
    m.active is None && m.state is Active && m.desired is Ready
}

/// The view of a completion's outcome.
pub open spec fn result_model(result: Result<(), CordisError>) -> Result<(), ErrorModel> {
    match result {
        Ok(_) => Ok(()),
        Err(error) => Err(error@),
    }
}

impl FiberMachine {
    pub fn new(fiber: FiberId) -> (r: FiberMachine)
        ensures
            r@ == fresh_machine(fiber),
    {
        FiberMachine {
            fiber,
            state: FiberState::Pending,
            desired: DesiredState::Waiting,
            active: None,
            loaded_epoch: None,
            next_generation: 1,
            failure: None,
            teardown_error: None,
        }
    }

    pub fn state(&self) -> (r: FiberState)
        ensures
            r == self@.state,
    {
        self.state
    }

    pub fn desired(&self) -> (r: &DesiredState)
        ensures
            r@ == self@.desired,
    {
        &self.desired
    }

    pub fn active_transition(&self) -> (r: Option<&FiberTransition>)
        ensures
            match r {
                Some(transition) => self@.active == Some(transition@),
                None => self@.active is None,
            },
    {
        self.active.as_ref()
    }

    pub fn failure(&self) -> (r: Option<&CordisError>)
        ensures
            match r {
                Some(error) => self@.failure == Some(error@),
                None => self@.failure is None,
            },
    {
        self.failure.as_ref()
    }

    pub fn teardown_error(&self) -> (r: Option<&CordisError>)
        ensures
            match r {
                Some(error) => self@.teardown_error == Some(error@),
                None => self@.teardown_error is None,
            },
    {
        self.teardown_error.as_ref()
    }

    /// Updates the target and starts work only when the machine is idle.
    pub fn set_desired(&mut self, desired: DesiredState) -> (r: Option<FiberTransition>)
        requires
            old(self)@.active is None ==> old(self)@.next_generation < u64::MAX,
        ensures
            final(self)@ == with_desired(old(self)@, desired@),
            view_option(r) == desired_transition(old(self)@, desired@),
    {
        self.desired = desired;
        if self.active.is_some() {
            return None;
        }
        match (self.state, &self.desired) {
            (FiberState::Pending, DesiredState::Ready(epoch)) => {
                let kind = TransitionKind::Load { epoch: epoch.duplicate() };
                Some(self.start(kind))
            },
            (FiberState::Pending, DesiredState::Retired) => {
                self.state = FiberState::Disposed;
                None
            },
            (FiberState::Failed, DesiredState::Retired) => {
                self.state = FiberState::Disposed;
                None
            },
            (FiberState::Active, DesiredState::Ready(epoch)) => {
                let loaded = match &self.loaded_epoch {
                    Some(loaded) => loaded.same(epoch),
                    None => false,
                };
                if loaded {
                    None
                } else {
                    Some(self.start(TransitionKind::Unload))
                }
            },
            (FiberState::Active, _) => Some(self.start(TransitionKind::Unload)),
            _ => None,
        }
    }

    /// Completes one externally executed transition.
    pub fn complete(&mut self, generation: u64, result: Result<(), CordisError>) -> (r:
        TransitionAdvance)
        requires
            current_generation(old(self)@, generation) ==> old(self)@.next_generation < u64::MAX,
        ensures
            final(self)@ == completed(old(self)@, generation, result_model(result)).0,
            r@ == completed(old(self)@, generation, result_model(result)).1,
    {
        let kind = match &self.active {
            None => {
                return TransitionAdvance::IgnoredStale;
            },
            Some(active) => {
                if active.generation != generation {
                    return TransitionAdvance::IgnoredStale;
                }
                active.kind.duplicate()
            },
        };
        self.active = None;
        match kind {
            TransitionKind::Load { epoch } => self.complete_load(epoch, result),
            TransitionKind::Unload => self.complete_unload(result),
        }
    }

    /// Explicitly retries a failed fiber against its latest desired state.
    pub fn restart(&mut self) -> (r: Option<FiberTransition>)
        requires
            old(self)@.state is Failed ==> old(self)@.next_generation < u64::MAX,
        ensures
            final(self)@ == restarted(old(self)@),
            match restart_kind(old(self)@) {
                Some(kind) => view_option(r) == Some(next_transition(old(self)@, kind)),
                None => r is None,
            },
    {
        if self.state != FiberState::Failed {
            return None;
        }
        self.failure = None;
        match &self.desired {
            DesiredState::Waiting => {
                self.state = FiberState::Pending;
                None
            },
            DesiredState::Ready(epoch) => {
                let kind = TransitionKind::Load { epoch: epoch.duplicate() };
                Some(self.start(kind))
            },
            DesiredState::Retired => {
                self.state = FiberState::Disposed;
                None
            },
        }
    }

    /// Forces an active fiber through unload and a fresh load of its desired epoch.
    pub fn reload(&mut self) -> (r: Option<FiberTransition>)
        requires
            old(self)@.active is None ==> old(self)@.next_generation < u64::MAX,
        ensures
            reloadable(old(self)@) ==> final(self)@ == started(old(self)@, KindModel::Unload)
                && view_option(r) == Some(next_transition(old(self)@, KindModel::Unload)),
            !reloadable(old(self)@) ==> final(self)@ == old(self)@ && r is None,
    {
        let ready = match &self.desired {
            DesiredState::Ready(_) => true,
            _ => false,
        };
        if self.active.is_none() && self.state == FiberState::Active && ready {
            Some(self.start(TransitionKind::Unload))
        } else {
            None
        }
    }

    fn complete_load(&mut self, epoch: DesiredEpoch, result: Result<(), CordisError>) -> (r:
        TransitionAdvance)
        requires
            old(self)@.next_generation < u64::MAX,
        ensures
            final(self)@ == load_completed(old(self)@, epoch@, result_model(result)).0,
            r@ == load_completed(old(self)@, epoch@, result_model(result)).1,
    {
        if let Err(error) = result {
            self.failure = Some(error);
            self.state = FiberState::Failed;
            return TransitionAdvance::Settled;
        }
        let is_current = match &self.desired {
            DesiredState::Ready(desired) => desired.same(&epoch),
            _ => false,
        };
        self.loaded_epoch = Some(epoch);
        if is_current {
            self.state = FiberState::Active;
            TransitionAdvance::Settled
        } else {
            TransitionAdvance::Start(self.start(TransitionKind::Unload))
        }
    }

    fn complete_unload(&mut self, result: Result<(), CordisError>) -> (r: TransitionAdvance)
        requires
            old(self)@.next_generation < u64::MAX,
        ensures
            final(self)@ == unload_completed(old(self)@, result_model(result)).0,
            r@ == unload_completed(old(self)@, result_model(result)).1,
    {
        self.teardown_error = match result {
            Err(error) => Some(error),
            Ok(_) => None,
        };
        self.loaded_epoch = None;
        match &self.desired {
            DesiredState::Waiting => {
                self.state = FiberState::Pending;
                TransitionAdvance::Settled
            },
            DesiredState::Ready(epoch) => {
                let kind = TransitionKind::Load { epoch: epoch.duplicate() };
                TransitionAdvance::Start(self.start(kind))
            },
            DesiredState::Retired => {
                self.state = FiberState::Disposed;
                TransitionAdvance::Settled
            },
        }
    }

    fn start(&mut self, kind: TransitionKind) -> (r: FiberTransition)
        requires
            old(self)@.next_generation < u64::MAX,
        ensures
            final(self)@ == started(old(self)@, kind@),
            r@ == next_transition(old(self)@, kind@),
    {
        self.state = match &kind {
            TransitionKind::Load { .. } => FiberState::Loading,
            TransitionKind::Unload => FiberState::Unloading,
        };
        let transition = FiberTransition {
            fiber: self.fiber,
            generation: self.next_generation,
            kind,
        };
        self.next_generation = self.next_generation + 1;
        self.active = Some(transition.duplicate());
        transition
    }
}

/// What holds of every machine. Work runs exactly while loading or unloading; it carries the
/// machine's identity and the generation drawn last. A loaded epoch is kept exactly while the
/// component is up. A pending machine waits for a target, and an active one runs the epoch it
/// should. A failure is kept from the failed load on until a restart, or for good.
pub open spec fn machine_valid(m: MachineModel) -> bool {
    &&& m.active is Some <==> (m.state is Loading || m.state is Unloading)
    &&& m.active matches Some(t) ==> t.fiber == m.fiber && t.generation + 1 == m.next_generation
        && (t.kind is Load <==> m.state is Loading)
    &&& m.loaded_epoch is Some <==> (m.state is Active || m.state is Unloading)
    &&& m.state is Pending ==> m.desired is Waiting
    &&& m.state is Active ==> m.desired == DesiredModel::Ready(m.loaded_epoch->Some_0)
    &&& m.state is Failed ==> m.failure is Some
    &&& m.failure is Some ==> m.state is Failed || m.state is Disposed
}

/// The next machine of a step keeps its identity, never reuses a generation and never leaves
/// the disposed state.
pub open spec fn step_kept(before: MachineModel, after: MachineModel) -> bool {
    &&& after.fiber == before.fiber
    &&& before.next_generation <= after.next_generation
    &&& before.state is Disposed ==> after.state is Disposed && after.active is None
    &&& after.active is Some && after.active != before.active ==> after.active->Some_0.generation
        == before.next_generation && after.next_generation == before.next_generation + 1
}

/// A fresh machine is valid.
pub proof fn fresh_machine_valid(fiber: FiberId)
    ensures
        machine_valid(fresh_machine(fiber)),
{
}

/// Every new target keeps a machine valid, and a disposed machine stays disposed.
pub proof fn desired_keeps_valid(m: MachineModel, desired: DesiredModel)
    requires
        machine_valid(m),
        m.active is None ==> m.next_generation < u64::MAX,
    ensures
        machine_valid(with_desired(m, desired)),
        step_kept(m, with_desired(m, desired)),
{
}

/// Every completion keeps a machine valid, and a disposed machine stays disposed.
pub proof fn completion_keeps_valid(
    m: MachineModel,
    generation: u64,
    result: Result<(), ErrorModel>,
)
    requires
        machine_valid(m),
        m.next_generation < u64::MAX,
    ensures
        machine_valid(completed(m, generation, result).0),
        step_kept(m, completed(m, generation, result).0),
{
}

/// Every explicit retry keeps a machine valid, and a disposed machine stays disposed.
pub proof fn restart_keeps_valid(m: MachineModel)
    requires
        machine_valid(m),
        m.next_generation < u64::MAX,
    ensures
        machine_valid(restarted(m)),
        step_kept(m, restarted(m)),
{
}

/// Every forced reload keeps a machine valid, and a disposed machine stays disposed.
pub proof fn reload_keeps_valid(m: MachineModel)
    requires
        machine_valid(m),
        m.next_generation < u64::MAX,
        reloadable(m),
    ensures
        machine_valid(started(m, KindModel::Unload)),
        step_kept(m, started(m, KindModel::Unload)),
{
}

/// A completion of any generation but the running one leaves the machine as it was.
pub proof fn stale_completion_changes_nothing(
    m: MachineModel,
    generation: u64,
    result: Result<(), ErrorModel>,
)
    requires
        !current_generation(m, generation),
    ensures
        completed(m, generation, result) == (m, AdvanceModel::IgnoredStale),
{
}

/// While a transition runs, new targets only replace one another: the last one is the target
/// the completion looks at, and nothing starts before.
pub proof fn targets_coalesce(m: MachineModel, first: DesiredModel, second: DesiredModel)
    requires
        m.active is Some,
    ensures
        desired_transition(m, first) is None,
        desired_transition(with_desired(m, first), second) is None,
        with_desired(with_desired(m, first), second) == with_desired(m, second),
{
}

/// A load becomes active exactly when the epoch it loaded is still the wanted one.
pub proof fn active_only_for_the_wanted_epoch(
    m: MachineModel,
    generation: u64,
    epoch: Seq<EpochEntryModel>,
)
    requires
        machine_valid(m),
        current_generation(m, generation),
        m.active->Some_0.kind == (KindModel::Load { epoch }),
    ensures
        completed(m, generation, Ok(())).0.state is Active <==> m.desired == DesiredModel::Ready(
            epoch,
        ),
{
}

/// A failed machine ignores every target but retirement until it is restarted.
pub proof fn failure_needs_restart(m: MachineModel, desired: DesiredModel)
    requires
        machine_valid(m),
        m.state is Failed,
        !(desired is Retired),
    ensures
        with_desired(m, desired) == (MachineModel { desired, ..m }),
        desired_transition(m, desired) is None,
{
}

/// An error during unload never keeps a fiber from retiring.
pub proof fn unload_error_does_not_block_retirement(
    m: MachineModel,
    generation: u64,
    error: ErrorModel,
)
    requires
        machine_valid(m),
        current_generation(m, generation),
        m.active->Some_0.kind is Unload,
        m.desired is Retired,
    ensures
        completed(m, generation, Err(error)).0.state is Disposed,
        completed(m, generation, Err(error)).0.teardown_error == Some(error),
        completed(m, generation, Err(error)).1 is Settled,
{
}

/// A changed provider selection always takes an active fiber down, even when nothing else of
/// the selection changed.
pub proof fn provider_identity_forces_reload(m: MachineModel, epoch: Seq<EpochEntryModel>, i: int)
    requires
        machine_valid(m),
        m.state is Active,
        0 <= i < epoch.len(),
        0 <= i < m.loaded_epoch->Some_0.len(),
        epoch[i].provider != m.loaded_epoch->Some_0[i].provider,
    ensures
        desired_transition(m, DesiredModel::Ready(epoch)) == Some(
            next_transition(m, KindModel::Unload),
        ),
{
}

} // verus!
