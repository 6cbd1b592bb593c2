//! What is checked, what is let through, and what is asked for.
use crate::cli::{
    after_config_step, artifact_changes, build_command, command_of, CommandModel, ConfigStepModel,
};
use crate::dynamic::settled_result;
use crate::entry::ResolvedEntryModel;
use crate::error::ErrorModel;
use crate::fiber::FiberState;
use crate::id::{EffectId, FiberId};
use crate::kernel::{context_fault, payload_fault};
use crate::loader::{parent_of, MountedEntry};
use crate::schema::config_verdict;
use crate::search::{first_index, first_index_is_first};
use crate::sorting::{sort_order, sorting_orders, KeyModel};
use crate::supervisor_model::{
    ascending, create_error, fiber_at, index_of, index_of_is, known, SupervisorModel,
};
use crate::text::text_less;
use crate::tree::{config_error, first_config_error, misconfigured, ConfigFault};
use crate::value::JsonModel;
use vstd::prelude::*;

verus! {

/// A plan goes through only if the configuration of every entry that runs a component with a
/// schema meets that schema. Groups and disabled entries are not checked.
pub proof fn running_configurations_are_checked(
    schemas: Map<Seq<char>, JsonModel>,
    keys: Seq<Seq<char>>,
    map: Map<Seq<char>, ResolvedEntryModel>,
)
    ensures
        match first_config_error(schemas, keys, map) {
            None => forall|i: int|
                0 <= i < keys.len() && !map[#[trigger] keys[i]].spec.group
                    && !map[keys[i]].effective_disabled && schemas.dom().contains(
                    map[keys[i]].spec.component,
                ) ==> (config_verdict(
                    schemas[map[keys[i]].spec.component],
                    map[keys[i]].spec.config,
                ) matches Ok(None)),
            Some(fault) => exists|i: int|
                {
                    let e = map[#[trigger] keys[i]];
                    &&& 0 <= i < keys.len()
                    &&& !e.spec.group
                    &&& !e.effective_disabled
                    &&& schemas.dom().contains(e.spec.component)
                    &&& match fault {
                        ConfigFault::Schema { component } => component == e.spec.component
                            && config_verdict(schemas[e.spec.component], e.spec.config) is Err,
                        ConfigFault::Config { entry, path, message } => entry == e.spec.id
                            && config_verdict(schemas[e.spec.component], e.spec.config) == Ok::<
                            Option<(Seq<char>, Seq<char>)>,
                            (),
                        >(Some((path, message))),
                    }
                },
        },
{
    let p = misconfigured(schemas, keys, map);
    first_index_is_first(keys.len(), p);
    match first_index(keys.len(), p) {
        Some(i) => {
            assert(p(i));
            assert(config_error(schemas, map[keys[i]]) is Some);
        },
        None => {
            assert forall|i: int|
                0 <= i < keys.len() && !map[#[trigger] keys[i]].spec.group
                    && !map[keys[i]].effective_disabled && schemas.dom().contains(
                    map[keys[i]].spec.component,
                ) implies (config_verdict(
                schemas[map[keys[i]].spec.component],
                map[keys[i]].spec.config,
            ) matches Ok(None)) by {
                assert(!p(i));
            }
        },
    }
}

/// A payload is let through up to its limit. A call is let through if its guest has an owner and
/// the call names that fiber and that effect.
pub proof fn calls_are_held_to_their_guest(
    limit: usize,
    length: nat,
    owner: Option<(FiberId, EffectId)>,
    fiber: u64,
    effect: u64,
)
    ensures
        payload_fault(limit, length) is None <==> length <= limit,
        context_fault(owner, fiber, effect) is None <==> owner == Some(
            (FiberId(fiber), EffectId(effect)),
        ),
{
}

/// A component has settled well only if it is active and nothing failed. What its load said
/// comes before what the fiber says.
pub proof fn only_active_components_settle_well(
    fiber: FiberId,
    load_error: Option<ErrorModel>,
    failure: Option<ErrorModel>,
    state: FiberState,
)
    ensures
        settled_result(fiber, load_error, failure, state) is Ok <==> load_error is None
            && failure is None && state == FiberState::Active,
        load_error matches Some(error) ==> settled_result(fiber, load_error, failure, state)
            == Err::<(), ErrorModel>(error),
        load_error is None ==> (failure matches Some(error) ==> settled_result(
            fiber,
            load_error,
            failure,
            state,
        ) == Err::<(), ErrorModel>(error)),
{
}

/// Sorted integers rise, or fall where that is asked for, and so do texts.
pub proof fn sorted_values_rise_or_fall(keys: Seq<KeyModel>, descending: bool, i: int, j: int)
    requires
        (forall|k: int| 0 <= k < keys.len() ==> (#[trigger] keys[k]) is Int) || forall|k: int|
            0 <= k < keys.len() ==> (#[trigger] keys[k]) is Text,
        0 <= i < j < keys.len(),
    ensures
        ({
            let order = sort_order(keys, descending, keys.len());
            &&& order.len() == keys.len()
            &&& order.no_duplicates()
            &&& 0 <= order[i] < keys.len()
            &&& 0 <= order[j] < keys.len()
            &&& match (keys[order[i]], keys[order[j]]) {
                (KeyModel::Int(a), KeyModel::Int(b)) => if descending {
                    a >= b
                } else {
                    a <= b
                },
                (KeyModel::Text(a), KeyModel::Text(b)) => if descending {
                    !text_less(a, b)
                } else {
                    !text_less(b, a)
                },
                _ => false,
            }
        }),
{
    sorting_orders(keys, descending, keys.len());
    let order = sort_order(keys, descending, keys.len());
    let a = keys[order[i]];
    let b = keys[order[j]];
}

/// What a command line asks for: one of the three commands on a configuration, a build of a
/// package, help or the version. Everything else is answered with the usage.
pub proof fn commands_are_spelled_out(arguments: Seq<Seq<char>>, x: Seq<char>)
    ensures
        command_of(seq!["check"@, x]) == Some(CommandModel::Check(x)),
        command_of(seq!["run"@, x]) == Some(CommandModel::Run(x)),
        command_of(seq!["inspect"@, x]) == Some(CommandModel::Inspect(x)),
        command_of(seq!["build-component"@, x]) == Some(
            CommandModel::BuildComponent { package: x, release: false },
        ),
        command_of(seq!["build-component"@, x, "--release"@]) == Some(
            CommandModel::BuildComponent { package: x, release: true },
        ),
        command_of(arguments) matches Some(command) ==> match command {
            CommandModel::Check(config) => arguments == seq!["check"@, config],
            CommandModel::Run(config) => arguments == seq!["run"@, config],
            CommandModel::Inspect(config) => arguments == seq!["inspect"@, config],
            CommandModel::BuildComponent { package, release } => arguments == if release {
                seq!["build-component"@, package, "--release"@]
            } else {
                seq!["build-component"@, package]
            },
            CommandModel::Help => arguments == seq!["--help"@] || arguments == seq!["-h"@],
            CommandModel::Version => arguments == seq!["--version"@] || arguments == seq!["-V"@],
        },
{
    reveal_strlit("check");
    reveal_strlit("run");
    reveal_strlit("inspect");
    reveal_strlit("build-component");
    reveal_strlit("--release");
    assert("check"@.len() != "run"@.len());
    assert("check"@.len() != "inspect"@.len());
    assert("check"@.len() != "build-component"@.len());
    assert("run"@.len() != "inspect"@.len());
    assert("run"@.len() != "build-component"@.len());
    assert("inspect"@.len() != "build-component"@.len());
    match command_of(arguments) {
        Some(CommandModel::Check(config)) => {
            assert(arguments =~= seq!["check"@, config]);
        },
        Some(CommandModel::Run(config)) => {
            assert(arguments =~= seq!["run"@, config]);
        },
        Some(CommandModel::Inspect(config)) => {
            assert(arguments =~= seq!["inspect"@, config]);
        },
        Some(CommandModel::BuildComponent { package, release }) => {
            if release {
                assert(arguments =~= seq!["build-component"@, package, "--release"@]);
            } else {
                assert(arguments =~= seq!["build-component"@, package]);
            }
        },
        Some(CommandModel::Help) => {
            assert(arguments =~= seq!["--help"@] || arguments =~= seq!["-h"@]);
        },
        Some(CommandModel::Version) => {
            assert(arguments =~= seq!["--version"@] || arguments =~= seq!["-V"@]);
        },
        None => {},
    }
}

/// All changed paths but that of the configuration are changes of artifacts.
pub proof fn other_changes_are_artifacts(
    paths: Seq<Seq<char>>,
    config: Seq<char>,
    n: nat,
    path: Seq<char>,
)
    requires
        n <= paths.len(),
    ensures
        artifact_changes(paths, config, n).contains(path) <==> path != config && exists|k: int|
            0 <= k < n && #[trigger] paths[k] == path,
    decreases n,
{
    if n > 0 {
        other_changes_are_artifacts(paths, config, (n - 1) as nat, path);
        let before = artifact_changes(paths, config, (n - 1) as nat);
        let all = artifact_changes(paths, config, n);
        if all.contains(path) {
            let k = choose|k: int| 0 <= k < all.len() && all[k] == path;
            if k < before.len() {
                assert(before[k] == path);
            } else {
                assert(paths[n - 1] == path);
            }
        }
        if before.contains(path) {
            let k = choose|k: int| 0 <= k < before.len() && before[k] == path;
            assert(all[k] == path);
        }
        if paths[n - 1] == path && path != config {
            assert(all[before.len() as int] == path);
        }
    }
}

/// A component is built for `wasm32-wasip2`, by its package, and as a release only where that is
/// asked for.
pub proof fn builds_name_their_package(package: Seq<char>, release: bool)
    ensures
        build_command(package, release).contains(package),
        build_command(package, release).contains("wasm32-wasip2"@),
        build_command(package, release).last() == "--release"@ <==> release || package
            == "--release"@,
{
    let all = build_command(package, release);
    assert(all[4] == package);
    assert(all[2] == "wasm32-wasip2"@);
}

/// A fiber can be created without a parent. A parent has to exist, and where it has to be alive
/// it is loading or active.
pub proof fn new_fibers_need_their_parent(s: SupervisorModel, parent: FiberId, live: bool, i: int)
    requires
        ascending(s.fibers),
    ensures
        create_error(s, None, live) is None,
        (forall|k: int| 0 <= k < s.fibers.len() ==> (#[trigger] s.fibers[k]).id != parent)
            ==> create_error(s, Some(parent), live) == Some(
            ErrorModel::UnknownFiber { fiber: parent },
        ),
        0 <= i < s.fibers.len() && s.fibers[i].id == parent ==> create_error(
            s,
            Some(parent),
            live,
        ) == if !live || s.fibers[i].machine.state == FiberState::Loading
            || s.fibers[i].machine.state == FiberState::Active {
            None
        } else {
            Some(ErrorModel::InactiveFiber { fiber: parent })
        },
{
    if known(s.fibers, parent) {
        let k = index_of(s.fibers, parent);
        assert(fiber_at(s.fibers, parent, k));
    }
    if 0 <= i < s.fibers.len() && s.fibers[i].id == parent {
        assert(fiber_at(s.fibers, parent, i));
        index_of_is(s.fibers, parent, i);
    }
}

/// An entry is mounted below the fiber of the entry it is nested in, and below the root where
/// that has none.
pub proof fn entries_are_mounted_below_their_parent(
    mounted: Map<Seq<char>, MountedEntry>,
    parent: Seq<char>,
    root: FiberId,
)
    ensures
        parent_of(mounted, None, root) == root,
        mounted.dom().contains(parent) ==> parent_of(mounted, Some(parent), root)
            == mounted[parent].fiber,
        !mounted.dom().contains(parent) ==> parent_of(mounted, Some(parent), root) == root,
{
}

/// A reconfiguration is committed only after it was read, carried out, settled and watched. One
/// that cannot be read or carried out keeps the application, and one that fails later ends it.
pub proof fn reconfigurations_keep_or_commit(outcome: Result<(), Seq<char>>)
    ensures
        after_config_step(ConfigStepModel::Load, outcome) is Reconcile <==> outcome is Ok,
        after_config_step(ConfigStepModel::Reconcile, outcome) is Settle <==> outcome is Ok,
        after_config_step(ConfigStepModel::Settle, outcome) is Watch <==> outcome is Ok,
        after_config_step(ConfigStepModel::Watch, outcome) is Committed <==> outcome is Ok,
        outcome is Err ==> after_config_step(ConfigStepModel::Load, outcome) is Kept
            && after_config_step(ConfigStepModel::Reconcile, outcome) is Kept,
        outcome matches Err(error) ==> after_config_step(ConfigStepModel::Settle, outcome)
            == ConfigStepModel::Failed(error) && after_config_step(ConfigStepModel::Watch, outcome)
            == ConfigStepModel::Failed(error),
{
}

} // verus!
