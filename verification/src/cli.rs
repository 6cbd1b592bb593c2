//! Command line of the runtime.
use crate::fiber::FiberState;
use crate::id::FiberId;
use crate::order::same_text;
use crate::text::{decimal, push_decimal, views};
use vstd::prelude::*;

verus! {

/// What a command line asks for.
#[derive(Clone, Debug, PartialEq, Eq)]
pub enum CliCommand {
    Check(String),
    Run(String),
    Inspect(String),
    BuildComponent { package: String, release: bool },
    Help,
    Version,
}

/// What a command line asks for.
pub enum CommandModel {
    Check(Seq<char>),
    Run(Seq<char>),
    Inspect(Seq<char>),
    BuildComponent { package: Seq<char>, release: bool },
    Help,
    Version,
}

impl View for CliCommand {
    type V = CommandModel;

    open spec fn view(&self) -> CommandModel {
        match self {
            CliCommand::Check(config) => CommandModel::Check(config@),
            CliCommand::Run(config) => CommandModel::Run(config@),
            CliCommand::Inspect(config) => CommandModel::Inspect(config@),
            CliCommand::BuildComponent { package, release } => CommandModel::BuildComponent {
                package: package@,
                release: *release,
            },
            CliCommand::Help => CommandModel::Help,
            CliCommand::Version => CommandModel::Version,
        }
    }
}

/// The command a list of arguments spells, if it has one of the accepted shapes.
pub open spec fn command_of(arguments: Seq<Seq<char>>) -> Option<CommandModel> {
    if arguments.len() == 1 {
        if arguments[0] == "--help"@ || arguments[0] == "-h"@ {
            Some(CommandModel::Help)
        } else if arguments[0] == "--version"@ || arguments[0] == "-V"@ {
            Some(CommandModel::Version)
        } else {
            None
        }
    } else if arguments.len() == 2 {
        if arguments[0] == "check"@ {
            Some(CommandModel::Check(arguments[1]))
        } else if arguments[0] == "run"@ {
            Some(CommandModel::Run(arguments[1]))
        } else if arguments[0] == "inspect"@ {
            Some(CommandModel::Inspect(arguments[1]))
        } else if arguments[0] == "build-component"@ {
            Some(CommandModel::BuildComponent { package: arguments[1], release: false })
        } else {
            None
        }
    } else if arguments.len() == 3 && arguments[0] == "build-component"@ && arguments[2]
        == "--release"@ {
        Some(CommandModel::BuildComponent { package: arguments[1], release: true })
    } else {
        None
    }
}

/// How the program is used.
pub open spec fn usage_text() -> Seq<char> {
    "usage: cordis check|run|inspect <config.{json,yaml}>\n       cordis build-component <package> [--release]\n       cordis --help | --version"@
}

pub fn usage() -> (r: &'static str)
    ensures
        r@ == usage_text(),
{
    "usage: cordis check|run|inspect <config.{json,yaml}>\n       cordis build-component <package> [--release]\n       cordis --help | --version"
}

/// Reads a command line. Anything but an accepted shape is answered with the usage text.
pub fn parse_arguments(arguments: &[String]) -> (r: Result<CliCommand, &'static str>)
    ensures
        match (r, command_of(views(arguments@))) {
            (Ok(command), Some(expected)) => command@ == expected,
            (Err(text), None) => text@ == usage_text(),
            _ => false,
        },
{
    proof {
        assert(views(arguments@).len() == arguments@.len());
    }
    if arguments.len() == 1 {
        let flag = arguments[0].as_str();
        if same_text(flag, "--help") || same_text(flag, "-h") {
            return Ok(CliCommand::Help);
        }
        if same_text(flag, "--version") || same_text(flag, "-V") {
            return Ok(CliCommand::Version);
        }
        return Err(usage());
    }
    if arguments.len() == 2 {
        let command = arguments[0].as_str();
        let value = arguments[1].clone();
        if same_text(command, "check") {
            return Ok(CliCommand::Check(value));
        }
        if same_text(command, "run") {
            return Ok(CliCommand::Run(value));
        }
        if same_text(command, "inspect") {
            return Ok(CliCommand::Inspect(value));
        }
        if same_text(command, "build-component") {
            return Ok(CliCommand::BuildComponent { package: value, release: false });
        }
        return Err(usage());
    }
    if arguments.len() == 3 && same_text(arguments[0].as_str(), "build-component") && same_text(
        arguments[2].as_str(),
        "--release",
    ) {
        return Ok(CliCommand::BuildComponent { package: arguments[1].clone(), release: true });
    }
    Err(usage())
}

/// The arguments `cargo` gets to build a component.
pub open spec fn build_command(package: Seq<char>, release: bool) -> Seq<Seq<char>> {
    let base = seq!["build"@, "--target"@, "wasm32-wasip2"@, "-p"@, package];
    if release {
        base.push("--release"@)
    } else {
        base
    }
}

pub fn build_arguments(package: &str, release: bool) -> (r: Vec<String>)
    ensures
        views(r@) == build_command(package@, release),
{
    let mut out: Vec<String> = Vec::new();
    out.push("build".to_owned());
    out.push("--target".to_owned());
    out.push("wasm32-wasip2".to_owned());
    out.push("-p".to_owned());
    out.push(package.to_owned());
    if release {
        out.push("--release".to_owned());
    }
    proof {
        assert(views(out@) =~= build_command(package@, release));
    }
    out
}

/// The exit code for a finished child process: its own, if that is one, and otherwise plain
/// failure.
pub fn status_exit_code(code: Option<i32>) -> (r: u8)
    ensures
        r as int == match code {
            Some(value) => if 0 < value <= 255 {
                value as int
            } else {
                1
            },
            None => 1,
        },
{
    match code {
        Some(value) => if 0 < value && value <= 255 {
            value as u8
        } else {
            1
        },
        None => 1,
    }
}

/// The changed paths among the first `n` other than the configuration file.
pub open spec fn artifact_changes(paths: Seq<Seq<char>>, config: Seq<char>, n: nat) -> Seq<Seq<char>>
    decreases n,
{
    if n == 0 {
        Seq::empty()
    } else {
        let before = artifact_changes(paths, config, (n - 1) as nat);
        if paths[n - 1] == config {
            before
        } else {
            before.push(paths[n - 1])
        }
    }
}

/// Separates a change of the configuration file from changes of artifacts.
pub fn split_changes(paths: &Vec<String>, config: &str) -> (r: (bool, Vec<String>))
    ensures
        r.0 == views(paths@).contains(config@),
        views(r.1@) == artifact_changes(views(paths@), config@, paths@.len()),
{
    let ghost all = views(paths@);
    let mut found = false;
    let mut rest: Vec<String> = Vec::new();
    let mut i: usize = 0;
    proof {
        assert(views(rest@) =~= artifact_changes(all, config@, 0));
    }
    while i < paths.len()
        invariant
            all == views(paths@),
            i <= paths.len(),
            found == exists|k: int| 0 <= k < i && #[trigger] all[k] == config@,
            views(rest@) == artifact_changes(all, config@, i as nat),
        decreases paths.len() - i,
    {
        proof {
            assert(all[i as int] == paths@[i as int]@);
        }
        if same_text(paths[i].as_str(), config) {
            found = true;
        } else {
            let ghost before = views(rest@);
            rest.push(paths[i].clone());
            proof {
                assert(views(rest@) =~= before.push(paths@[i as int]@));
            }
        }
        i = i + 1;
    }
    (found, rest)
}

/// The number of fibers below the root.
pub open spec fn below_root(fibers: nat) -> nat {
    if fibers == 0 {
        0
    } else {
        (fibers - 1) as nat
    }
}

/// What a started application says. The root fiber does not count.
pub fn running_line(fibers: usize, artifacts: usize) -> (r: String)
    ensures
        r@ == "running "@ + decimal(below_root(fibers as nat)) + " fibers across "@ + decimal(
            artifacts as nat,
        ) + " artifacts; press Ctrl-C to stop"@,
{
    let mut out = "running ".to_owned();
    push_decimal(&mut out, fibers.saturating_sub(1) as u64);
    out.append(" fibers across ");
    push_decimal(&mut out, artifacts as u64);
    out.append(" artifacts; press Ctrl-C to stop");
    out
}

/// What an application says that took over a changed configuration. The root fiber does not
/// count.
pub fn reconfigured_line(fibers: usize) -> (r: String)
    ensures
        r@ == "config: committed "@ + decimal(below_root(fibers as nat)) + " active fibers"@,
{
    let mut out = "config: committed ".to_owned();
    push_decimal(&mut out, fibers.saturating_sub(1) as u64);
    out.append(" active fibers");
    out
}

/// What an application says that took over changed artifacts.
pub fn reloaded_line(entries: usize) -> (r: String)
    ensures
        r@ == "hmr: committed "@ + decimal(entries as nat) + " entries"@,
{
    let mut out = "hmr: committed ".to_owned();
    push_decimal(&mut out, entries as u64);
    out.append(" entries");
    out
}

/// What a stopped application says.
pub fn stopped_line(fibers: usize) -> (r: String)
    ensures
        r@ == "stopped "@ + decimal(fibers as nat) + " fibers"@,
{
    let mut out = "stopped ".to_owned();
    push_decimal(&mut out, fibers as u64);
    out.append(" fibers");
    out
}

/// The name of a lifecycle state.
pub open spec fn state_name(state: FiberState) -> Seq<char> {
    match state {
        FiberState::Pending => "Pending"@,
        FiberState::Loading => "Loading"@,
        FiberState::Active => "Active"@,
        FiberState::Failed => "Failed"@,
        FiberState::Unloading => "Unloading"@,
        FiberState::Disposed => "Disposed"@,
    }
}

/// How an optional parent is shown.
pub open spec fn parent_text(parent: Option<FiberId>) -> Seq<char> {
    match parent {
        Some(fiber) => "Some(FiberId("@ + decimal(fiber.0 as nat) + "))"@,
        None => "None"@,
    }
}

/// One fiber of an inspected application.
pub fn fiber_line(
    fiber: FiberId,
    parent: Option<FiberId>,
    state: FiberState,
    dependencies: usize,
) -> (r: String)
    ensures
        r@ == "  fiber="@ + decimal(fiber.0 as nat) + " parent="@ + parent_text(parent)
            + " state="@ + state_name(state) + " dependencies="@ + decimal(dependencies as nat),
{
    let mut out = "  fiber=".to_owned();
    push_decimal(&mut out, fiber.0);
    out.append(" parent=");
    let ghost before = out@;
    match parent {
        Some(parent) => {
            out.append("Some(FiberId(");
            push_decimal(&mut out, parent.0);
            out.append("))");
        },
        None => out.append("None"),
    }
    proof {
        assert(out@ =~= before + parent_text(parent));
    }
    out.append(" state=");
    match state {
        FiberState::Pending => out.append("Pending"),
        FiberState::Loading => out.append("Loading"),
        FiberState::Active => out.append("Active"),
        FiberState::Failed => out.append("Failed"),
        FiberState::Unloading => out.append("Unloading"),
        FiberState::Disposed => out.append("Disposed"),
    }
    out.append(" dependencies=");
    push_decimal(&mut out, dependencies as u64);
    out
}

/// What taking over a changed configuration does next.
#[derive(Debug, PartialEq, Eq)]
pub enum ConfigStep {
    /// Read the entries.
    Load,
    /// Move the application to them.
    Reconcile,
    /// Wait until nothing is in transition.
    Settle,
    /// Watch the artifacts that are in use now.
    Watch,
    /// The new configuration is in force.
    Committed,
    /// The earlier configuration stays in force, with what to say about it.
    Kept(String),
    /// The application cannot go on.
    Failed(String),
}

/// The content of a step.
pub enum ConfigStepModel {
    Load,
    Reconcile,
    Settle,
    Watch,
    Committed,
    Kept(Seq<char>),
    Failed(Seq<char>),
}

impl View for ConfigStep {
    type V = ConfigStepModel;

    open spec fn view(&self) -> ConfigStepModel {
        match self {
            ConfigStep::Load => ConfigStepModel::Load,
            ConfigStep::Reconcile => ConfigStepModel::Reconcile,
            ConfigStep::Settle => ConfigStepModel::Settle,
            ConfigStep::Watch => ConfigStepModel::Watch,
            ConfigStep::Committed => ConfigStepModel::Committed,
            ConfigStep::Kept(line) => ConfigStepModel::Kept(line@),
            ConfigStep::Failed(error) => ConfigStepModel::Failed(error@),
        }
    }
}

/// The content of an outcome.
pub open spec fn outcome_text(outcome: Result<(), String>) -> Result<(), Seq<char>> {
    match outcome {
        Ok(_) => Ok(()),
        Err(error) => Err(error@),
    }
}

/// The step after one with its outcome. A configuration that cannot be read or taken over leaves
/// the application as it is.
pub open spec fn after_config_step(
    step: ConfigStepModel,
    outcome: Result<(), Seq<char>>,
) -> ConfigStepModel {
    match (step, outcome) {
        (ConfigStepModel::Load, Ok(_)) => ConfigStepModel::Reconcile,
        (ConfigStepModel::Load, Err(error)) => ConfigStepModel::Kept(
            "config: preflight failed: "@ + error,
        ),
        (ConfigStepModel::Reconcile, Ok(_)) => ConfigStepModel::Settle,
        (ConfigStepModel::Reconcile, Err(error)) => ConfigStepModel::Kept(
            "config: transaction rolled back: "@ + error,
        ),
        (ConfigStepModel::Settle, Ok(_)) => ConfigStepModel::Watch,
        (ConfigStepModel::Watch, Ok(_)) => ConfigStepModel::Committed,
        (ConfigStepModel::Settle, Err(error)) => ConfigStepModel::Failed(error),
        (ConfigStepModel::Watch, Err(error)) => ConfigStepModel::Failed(error),
        (ended, _) => ended,
    }
}

impl ConfigStep {
    /// The step that follows this one with its outcome.
    pub fn after(self, outcome: Result<(), String>) -> (r: ConfigStep)
        ensures
            r@ == after_config_step(self@, outcome_text(outcome)),
    {
        match (self, outcome) {
            (ConfigStep::Load, Ok(_)) => ConfigStep::Reconcile,
            (ConfigStep::Load, Err(error)) => {
                let mut line = "config: preflight failed: ".to_owned();
                line.append(error.as_str());
                ConfigStep::Kept(line)
            },
            (ConfigStep::Reconcile, Ok(_)) => ConfigStep::Settle,
            (ConfigStep::Reconcile, Err(error)) => {
                let mut line = "config: transaction rolled back: ".to_owned();
                line.append(error.as_str());
                ConfigStep::Kept(line)
            },
            (ConfigStep::Settle, Ok(_)) => ConfigStep::Watch,
            (ConfigStep::Watch, Ok(_)) => ConfigStep::Committed,
            (ConfigStep::Settle, Err(error)) => ConfigStep::Failed(error),
            (ConfigStep::Watch, Err(error)) => ConfigStep::Failed(error),
            (ended, _) => ended,
        }
    }
}

} // verus!
