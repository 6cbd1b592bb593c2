use cordis::cli::{
    build_arguments, fiber_line, parse_arguments, reconfigured_line, reloaded_line, running_line,
    split_changes, status_exit_code, stopped_line, usage, CliCommand, ConfigStep,
};
use cordis::fiber::FiberState;
use cordis::id::FiberId;

fn args(values: &[&str]) -> Vec<String> {
    values.iter().map(|value| (*value).to_owned()).collect()
}

#[test]
fn stable_commands_parse_to_typed_contract() {
    assert_eq!(
        parse_arguments(&args(&["check", "cordis.json"])),
        Ok(CliCommand::Check("cordis.json".into()))
    );
    assert_eq!(
        parse_arguments(&args(&["run", "cordis.yaml"])),
        Ok(CliCommand::Run("cordis.yaml".into()))
    );
    assert_eq!(
        parse_arguments(&args(&["inspect", "cordis.json"])),
        Ok(CliCommand::Inspect("cordis.json".into()))
    );
    assert_eq!(
        parse_arguments(&args(&["build-component", "guest", "--release"])),
        Ok(CliCommand::BuildComponent {
            package: "guest".into(),
            release: true,
        })
    );
}

#[test]
fn help_version_and_invalid_shapes_are_unambiguous() {
    assert_eq!(parse_arguments(&args(&["-h"])), Ok(CliCommand::Help));
    assert_eq!(
        parse_arguments(&args(&["--version"])),
        Ok(CliCommand::Version)
    );
    assert_eq!(parse_arguments(&[]), Err(usage()));
    assert_eq!(
        parse_arguments(&args(&["build-component", "guest", "--debug"])),
        Err(usage())
    );
}

#[test]
fn builds_are_debug_unless_released() {
    assert_eq!(
        parse_arguments(&args(&["build-component", "guest"])),
        Ok(CliCommand::BuildComponent {
            package: "guest".into(),
            release: false,
        })
    );
    assert_eq!(
        build_arguments("guest", false),
        args(&["build", "--target", "wasm32-wasip2", "-p", "guest"])
    );
    assert_eq!(build_arguments("guest", true)[5], "--release");
}

#[test]
fn changes_separate_the_configuration_from_artifacts() {
    let changes = args(&["/a.wasm", "/cordis.json", "/b.wasm", "/cordis.json"]);
    assert_eq!(
        split_changes(&changes, "/cordis.json"),
        (true, args(&["/a.wasm", "/b.wasm"]))
    );
    assert_eq!(
        split_changes(&args(&["/a.wasm"]), "/cordis.json"),
        (false, args(&["/a.wasm"]))
    );
}

#[test]
fn exit_codes_pass_through_only_when_they_mean_failure() {
    assert_eq!(status_exit_code(Some(3)), 3);
    assert_eq!(status_exit_code(Some(255)), 255);
    assert_eq!(status_exit_code(Some(0)), 1);
    assert_eq!(status_exit_code(Some(256)), 1);
    assert_eq!(status_exit_code(Some(-1)), 1);
    assert_eq!(status_exit_code(None), 1);
}

#[test]
fn applications_report_what_they_do() {
    assert_eq!(
        running_line(4, 12),
        "running 3 fibers across 12 artifacts; press Ctrl-C to stop"
    );
    assert_eq!(
        running_line(0, 0),
        "running 0 fibers across 0 artifacts; press Ctrl-C to stop"
    );
    assert_eq!(reconfigured_line(11), "config: committed 10 active fibers");
    assert_eq!(reloaded_line(2), "hmr: committed 2 entries");
    assert_eq!(stopped_line(3), "stopped 3 fibers");
    let line = |parent, state| fiber_line(FiberId(2), parent, state, 1);
    assert_eq!(
        line(Some(FiberId(1)), FiberState::Active),
        "  fiber=2 parent=Some(FiberId(1)) state=Active dependencies=1"
    );
    for state in [
        FiberState::Pending,
        FiberState::Loading,
        FiberState::Failed,
        FiberState::Unloading,
        FiberState::Disposed,
    ] {
        assert_eq!(
            line(None, state),
            format!("  fiber=2 parent=None state={state:?} dependencies=1")
        );
    }
}

#[test]
fn failed_reconfigurations_keep_the_application() {
    let mut step = ConfigStep::Load;
    for next in [
        ConfigStep::Reconcile,
        ConfigStep::Settle,
        ConfigStep::Watch,
        ConfigStep::Committed,
    ] {
        step = step.after(Ok(()));
        assert_eq!(step, next);
    }
    assert_eq!(
        ConfigStep::Load.after(Err("no file".to_owned())),
        ConfigStep::Kept("config: preflight failed: no file".to_owned())
    );
    assert_eq!(
        ConfigStep::Reconcile.after(Err("broken".to_owned())),
        ConfigStep::Kept("config: transaction rolled back: broken".to_owned())
    );
    assert_eq!(
        ConfigStep::Settle.after(Err("closed".to_owned())),
        ConfigStep::Failed("closed".to_owned())
    );
    assert_eq!(
        ConfigStep::Watch.after(Err("gone".to_owned())),
        ConfigStep::Failed("gone".to_owned())
    );
}
