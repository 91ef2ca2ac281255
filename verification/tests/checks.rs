use monkeynuthead_upnp::checks::{
    check_steps, first_runner_action, is_strict_value, lists_subcommand, next_runner_action,
    ExitCause, RunnerAction, RunnerEvent, RunnerState,
};

#[test]
fn strict_values() {
    assert!(is_strict_value("1"));
    assert!(is_strict_value("true"));
    assert!(is_strict_value("TRUE"));
    assert!(is_strict_value("Yes"));
    assert!(!is_strict_value(""));
    assert!(!is_strict_value("0"));
    assert!(!is_strict_value("no"));
    assert!(!is_strict_value(" true"));
    assert!(!is_strict_value("yes!"));
}

#[test]
fn subcommand_listing() {
    let listing = "Installed Commands:\n    audit                Audit Cargo.lock\r\n    build                Compile a local package\n    clippy\n";
    assert!(lists_subcommand(listing, "audit"));
    assert!(lists_subcommand(listing, "build"));
    assert!(lists_subcommand(listing, "clippy"));
    assert!(!lists_subcommand(listing, "deny"));
    assert!(!lists_subcommand(listing, "Compile"));
    assert!(lists_subcommand(listing, "Installed"));
    assert!(!lists_subcommand(listing, "Install"));
}

#[test]
fn subcommand_listing_needs_the_exact_name() {
    assert!(!lists_subcommand("    audits\n", "audit"));
    assert!(!lists_subcommand("    auditable   Audit binaries\n", "audit"));
    assert!(!lists_subcommand("    aud\n", "audit"));
    assert!(lists_subcommand("    deny-x\n    deny\tCargo plugin\n", "deny"));
}

#[test]
fn subcommand_listing_edges() {
    assert!(!lists_subcommand("", "audit"));
    assert!(!lists_subcommand("", ""));
    assert!(lists_subcommand("deny", "deny"));
    assert!(lists_subcommand("  deny\r", "deny"));
    assert!(!lists_subcommand("  deny\r", "deny\r"));
    assert!(lists_subcommand("  deny\r\n", "deny"));
    assert!(!lists_subcommand("\n\n", "x"));
    assert!(lists_subcommand("\n\n", ""));
}

#[test]
fn check_steps_in_order() {
    let steps = check_steps();
    let names: Vec<&str> = steps.iter().map(|s| s.name.as_str()).collect();
    assert_eq!(names, vec!["fmt", "clippy", "check", "test", "audit", "deny"]);
    assert_eq!(steps[0].args, vec!["fmt", "--all", "--", "--check"]);
    assert_eq!(
        steps[1].args,
        vec!["clippy", "--all-targets", "--all-features", "--", "-D", "warnings"]
    );
    assert_eq!(steps[2].args, vec!["check", "--all-targets", "--all-features"]);
    assert_eq!(steps[3].args, vec!["test", "--all-targets", "--all-features"]);
    assert_eq!(steps[4].args, vec!["audit"]);
    assert_eq!(steps[5].args, vec!["deny", "check"]);
    assert!(steps[..4].iter().all(|s| s.install_hint.is_none()));
    assert_eq!(steps[4].install_hint.as_deref(), Some("cargo-audit"));
    assert_eq!(steps[5].install_hint.as_deref(), Some("cargo-deny"));
}

/// Runs the runner against scripted outcomes: the exit codes of the steps that
/// run and the listing answers, returning the actions taken.
fn drive(codes: &[i32], listed: &[bool], strict: bool) -> Vec<RunnerAction> {
    let (mut state, mut action) = first_runner_action();
    let mut codes = codes.iter();
    let mut listed = listed.iter();
    let mut actions = vec![action];
    loop {
        let event = match action {
            RunnerAction::RunStep(_) => RunnerEvent::StepExited(*codes.next().unwrap()),
            RunnerAction::CheckInstalled(_) => RunnerEvent::Listed(*listed.next().unwrap()),
            RunnerAction::WarnAndSkip(_) => RunnerEvent::Warned,
            RunnerAction::Exit(_, _) => return actions,
        };
        (state, action) = next_runner_action(state, event, strict);
        actions.push(action);
    }
}

#[test]
fn runner_runs_everything_when_installed() {
    let actions = drive(&[0, 0, 0, 0, 0, 0], &[true, true], true);
    assert_eq!(
        actions,
        vec![
            RunnerAction::RunStep(0),
            RunnerAction::RunStep(1),
            RunnerAction::RunStep(2),
            RunnerAction::RunStep(3),
            RunnerAction::CheckInstalled(4),
            RunnerAction::RunStep(4),
            RunnerAction::CheckInstalled(5),
            RunnerAction::RunStep(5),
            RunnerAction::Exit(0, ExitCause::AllPassed),
        ]
    );
}

#[test]
fn runner_skips_missing_tools_by_default() {
    let actions = drive(&[0, 0, 0, 0], &[false, false], false);
    assert_eq!(
        actions[4..].to_vec(),
        vec![
            RunnerAction::CheckInstalled(4),
            RunnerAction::WarnAndSkip(4),
            RunnerAction::CheckInstalled(5),
            RunnerAction::WarnAndSkip(5),
            RunnerAction::Exit(0, ExitCause::AllPassed),
        ]
    );
}

#[test]
fn runner_fails_on_missing_tool_in_strict_mode() {
    let actions = drive(&[0, 0, 0, 0], &[false], true);
    assert_eq!(
        actions.last(),
        Some(&RunnerAction::Exit(1, ExitCause::Missing(4)))
    );
    let actions = drive(&[0, 0, 0, 0, 0], &[true, false], true);
    assert_eq!(
        actions.last(),
        Some(&RunnerAction::Exit(1, ExitCause::Missing(5)))
    );
}

#[test]
fn runner_stops_at_first_failure() {
    let actions = drive(&[0, 101], &[], false);
    assert_eq!(
        actions,
        vec![
            RunnerAction::RunStep(0),
            RunnerAction::RunStep(1),
            RunnerAction::Exit(101, ExitCause::StepFailed(1)),
        ]
    );
    let actions = drive(&[0, 0, 0, 0, 0, 300], &[true, true], false);
    assert_eq!(
        actions.last(),
        Some(&RunnerAction::Exit(44, ExitCause::StepFailed(5)))
    );
}

#[test]
fn runner_ignores_unexpected_events() {
    let state = RunnerState::Checking(4);
    assert_eq!(
        next_runner_action(state, RunnerEvent::Warned, true),
        (state, RunnerAction::CheckInstalled(4))
    );
    let done = RunnerState::Finished(3, ExitCause::StepFailed(2));
    assert_eq!(
        next_runner_action(done, RunnerEvent::StepExited(0), false),
        (done, RunnerAction::Exit(3, ExitCause::StepFailed(2)))
    );
}
