//! The check runner: its list of steps, whether the strict-mode setting asks
//! for strict mode, whether the listing of cargo's subcommands names a given
//! subcommand, and the decisions that run the required steps in order and run,
//! skip or fail on the optional ones.
use vstd::prelude::*;

use crate::text::{
    chars_of, eq_ignore_case, lemma_trim_start_ws_prefix, lower, eq_ignore_case_exec, find_char, index_of, is_whitespace, is_ws,
    lemma_index_of, matches_at_exec, same_chars, trim_start, trim_start_bound,
};

verus! {

/// Whether a value of the strict-mode setting turns strict mode on: `1`, or
/// `true` or `yes` in any ASCII case.
pub open spec fn spec_is_strict_value(v: Seq<char>) -> bool {
    ||| v == seq!['1']
    ||| eq_ignore_case(v, seq!['t', 'r', 'u', 'e'])
    ||| eq_ignore_case(v, seq!['y', 'e', 's'])
}

/// Whether the strict-mode setting `v` turns strict mode on.
pub fn is_strict_value(v: &str) -> (b: bool)
    ensures
        b == spec_is_strict_value(v@),
{
    let c = chars_of(v);
    let mut one: Vec<char> = Vec::new();
    one.push('1');
    let mut t: Vec<char> = Vec::new();
    t.push('t');
    t.push('r');
    t.push('u');
    t.push('e');
    let mut y: Vec<char> = Vec::new();
    y.push('y');
    y.push('e');
    y.push('s');
    assert(one@ =~= seq!['1']);
    assert(t@ =~= seq!['t', 'r', 'u', 'e']);
    assert(y@ =~= seq!['y', 'e', 's']);
    same_chars(&c, &one) || eq_ignore_case_exec(&c, &t) || eq_ignore_case_exec(&c, &y)
}

/// `l` without one `'\r'` at its end.
pub open spec fn strip_cr(l: Seq<char>) -> Seq<char> {
    if l.len() > 0 && l.last() == '\r' {
        l.drop_last()
    } else {
        l
    }
}

/// `str::lines`: the lines of `s`, split at each `'\n'` and without their
/// `"\n"` or `"\r\n"` ending; a line ending at the very end adds no empty
/// line, and a last line without `'\n'` is kept as it is.
pub open spec fn text_lines(s: Seq<char>) -> Seq<Seq<char>>
    decreases s.len(),
{
    if s.len() == 0 {
        Seq::empty()
    } else {
        match index_of(s, '\n') {
            Some(k) => {
                proof {
                    lemma_index_of(s, '\n');
                }
                seq![strip_cr(s.take(k))] + text_lines(s.skip(k + 1))
            },
            None => seq![s],
        }
    }
}

/// The first word of `s`: its characters up to the first whitespace.
pub open spec fn first_word(s: Seq<char>) -> Seq<char>
    decreases s.len(),
{
    if s.len() == 0 || is_ws(s[0]) {
        Seq::empty()
    } else {
        seq![s[0]] + first_word(s.drop_first())
    }
}

/// A line of the subcommand listing names the subcommand `name` when its
/// first word, after its leading whitespace, is exactly `name`.
pub open spec fn names_subcommand(line: Seq<char>, name: Seq<char>) -> bool {
    first_word(trim_start(line)) == name
}

/// Some line of `lines` names the subcommand `name`.
pub open spec fn any_names_subcommand(lines: Seq<Seq<char>>, name: Seq<char>) -> bool {
    exists|i: int| 0 <= i < lines.len() && #[trigger] names_subcommand(lines[i], name)
}

proof fn lemma_any_names_front(l: Seq<char>, rest: Seq<Seq<char>>, name: Seq<char>)
    ensures
        any_names_subcommand(seq![l] + rest, name) == (names_subcommand(l, name)
            || any_names_subcommand(rest, name)),
{
    let all = seq![l] + rest;
    assert(all[0] == l);
    if any_names_subcommand(rest, name) {
        let i = choose|i: int| 0 <= i < rest.len() && #[trigger] names_subcommand(rest[i], name);
        assert(all[i + 1] == rest[i]);
    }
    if any_names_subcommand(all, name) && !names_subcommand(l, name) {
        let i = choose|i: int| 0 <= i < all.len() && #[trigger] names_subcommand(all[i], name);
        assert(i > 0);
        assert(all[i] == rest[i - 1]);
    }
}

/// Whether some line of `listing` (the output of `cargo --list`) names the
/// installed subcommand `name`: its first word is exactly `name`, so that
/// `auditable` does not stand for `audit`.
pub fn lists_subcommand(listing: &str, name: &str) -> (b: bool)
    ensures
        b == any_names_subcommand(text_lines(listing@), name@),
{
    let s = chars_of(listing);
    let p = chars_of(name);
    let n = s.len();
    let mut pos: usize = 0;
    assert(s@.skip(0) =~= s@);
    while pos < n
        invariant
            n == s@.len(),
            pos <= n,
            s@ == listing@,
            p@ == name@,
            any_names_subcommand(text_lines(s@), p@) == any_names_subcommand(
                text_lines(s@.skip(pos as int)),
                p@,
            ),
        decreases n - pos,
    {
        let ghost rest = s@.skip(pos as int);
        proof {
            assert(rest =~= s@.subrange(pos as int, n as int));
            lemma_index_of(rest, '\n');
        }
        let (end, next) = match find_char(&s, pos, n, '\n') {
            Some(k) => {
                if k > pos && s[k - 1] == '\r' {
                    (k - 1, k + 1)
                } else {
                    (k, k + 1)
                }
            },
            None => (n, n),
        };
        let ghost line = s@.subrange(pos as int, end as int);
        proof {
            match index_of(rest, '\n') {
                Some(k) => {
                    assert(rest.take(k) =~= s@.subrange(pos as int, pos + k));
                    if k > 0 && s@[pos + k - 1] == '\r' {
                        assert(strip_cr(rest.take(k)) =~= line);
                    } else {
                        assert(strip_cr(rest.take(k)) =~= line);
                    }
                    assert(rest.skip(k + 1) =~= s@.skip(next as int));
                    lemma_any_names_front(line, text_lines(s@.skip(next as int)), p@);
                },
                None => {
                    assert(line =~= rest);
                    assert(text_lines(rest) =~= seq![line]);
                    assert(seq![line] =~= seq![line] + Seq::<Seq<char>>::empty());
                    lemma_any_names_front(line, Seq::empty(), p@);
                    assert(s@.skip(next as int) =~= Seq::<char>::empty());
                },
            }
        }
        let a = trim_start_bound(&s, pos, end);
        let mut e = a;
        assert(s@.subrange(a as int, a as int) =~= Seq::<char>::empty());
        while e < end && !is_whitespace(s[e])
            invariant
                a <= e <= end <= n,
                n == s@.len(),
                first_word(s@.subrange(a as int, end as int)) == s@.subrange(a as int, e as int)
                    + first_word(s@.subrange(e as int, end as int)),
            decreases end - e,
        {
            let ghost cur = s@.subrange(e as int, end as int);
            assert(cur.drop_first() =~= s@.subrange(e + 1, end as int));
            assert(s@.subrange(a as int, e as int) + seq![s@[e as int]] =~= s@.subrange(
                a as int,
                e + 1,
            ));
            assert(s@.subrange(a as int, e as int) + (seq![s@[e as int]] + first_word(
                cur.drop_first(),
            )) =~= s@.subrange(a as int, e + 1) + first_word(cur.drop_first()));
            e = e + 1;
        }
        proof {
            let ghost cur = s@.subrange(e as int, end as int);
            assert(first_word(cur) =~= Seq::<char>::empty());
            assert(s@.subrange(a as int, e as int) + first_word(cur) =~= s@.subrange(
                a as int,
                e as int,
            ));
        }
        if e - a == p.len() && matches_at_exec(&s, &p, a) {
            proof {
                assert(names_subcommand(line, p@));
            }
            return true;
        }
        proof {
            assert(!names_subcommand(line, p@));
        }
        pos = next;
    }
    proof {
        assert(s@.skip(pos as int) =~= Seq::<char>::empty());
        assert(text_lines(Seq::<char>::empty()) =~= Seq::<Seq<char>>::empty());
    }
    false
}

// ---------------------------------------------------------------------------
// The steps
// ---------------------------------------------------------------------------

/// A step of the check runner: its name (the cargo subcommand), cargo's
/// arguments, and, for an optional step, the package that installs it.
pub struct StepView {
    pub name: Seq<char>,
    pub args: Seq<Seq<char>>,
    pub install_hint: Option<Seq<char>>,
}

/// A step of the check runner.
pub struct CheckStep {
    pub name: String,
    pub args: Vec<String>,
    pub install_hint: Option<String>,
}

impl View for CheckStep {
    type V = StepView;

    open spec fn view(&self) -> StepView {
        StepView {
            name: self.name@,
            args: self.args@.map_values(|a: String| a@),
            install_hint: match self.install_hint {
                Some(h) => Some(h@),
                None => None,
            },
        }
    }
}

/// The steps, in the order they run: the required `fmt`, `clippy`, `check`
/// and `test`, then the optional `audit` and `deny`.
pub open spec fn spec_check_steps() -> Seq<StepView> {
    seq![
        StepView {
            name: "fmt"@,
            args: seq!["fmt"@, "--all"@, "--"@, "--check"@],
            install_hint: None,
        },
        StepView {
            name: "clippy"@,
            args: seq![
                "clippy"@,
                "--all-targets"@,
                "--all-features"@,
                "--"@,
                "-D"@,
                "warnings"@,
            ],
            install_hint: None,
        },
        StepView {
            name: "check"@,
            args: seq!["check"@, "--all-targets"@, "--all-features"@],
            install_hint: None,
        },
        StepView {
            name: "test"@,
            args: seq!["test"@, "--all-targets"@, "--all-features"@],
            install_hint: None,
        },
        StepView { name: "audit"@, args: seq!["audit"@], install_hint: Some("cargo-audit"@) },
        StepView {
            name: "deny"@,
            args: seq!["deny"@, "check"@],
            install_hint: Some("cargo-deny"@),
        },
    ]
}

/// Step `i` must pass; the others run only where their subcommand is installed.
pub open spec fn step_required(i: int) -> bool {
    spec_check_steps()[i].install_hint is None
}

fn step_of(name: &str, args: Vec<String>, install_hint: Option<String>) -> (r: CheckStep)
    ensures
        r.name@ == name@,
        r.args@ == args@,
        r.install_hint == install_hint,
{
    CheckStep { name: name.to_owned(), args, install_hint }
}

/// The steps of the check runner, in the order they run.
pub fn check_steps() -> (r: Vec<CheckStep>)
    ensures
        r@.len() == spec_check_steps().len(),
        forall|i: int| 0 <= i < r@.len() ==> #[trigger] r@[i]@ == spec_check_steps()[i],
{
    let mut steps: Vec<CheckStep> = Vec::new();

    let mut a: Vec<String> = Vec::new();
    a.push("fmt".to_owned());
    a.push("--all".to_owned());
    a.push("--".to_owned());
    a.push("--check".to_owned());
    let st = step_of("fmt", a, None);
    assert(st@.args =~= spec_check_steps()[0].args);
    steps.push(st);

    let mut a: Vec<String> = Vec::new();
    a.push("clippy".to_owned());
    a.push("--all-targets".to_owned());
    a.push("--all-features".to_owned());
    a.push("--".to_owned());
    a.push("-D".to_owned());
    a.push("warnings".to_owned());
    let st = step_of("clippy", a, None);
    assert(st@.args =~= spec_check_steps()[1].args);
    steps.push(st);

    let mut a: Vec<String> = Vec::new();
    a.push("check".to_owned());
    a.push("--all-targets".to_owned());
    a.push("--all-features".to_owned());
    let st = step_of("check", a, None);
    assert(st@.args =~= spec_check_steps()[2].args);
    steps.push(st);

    let mut a: Vec<String> = Vec::new();
    a.push("test".to_owned());
    a.push("--all-targets".to_owned());
    a.push("--all-features".to_owned());
    let st = step_of("test", a, None);
    assert(st@.args =~= spec_check_steps()[3].args);
    steps.push(st);

    let mut a: Vec<String> = Vec::new();
    a.push("audit".to_owned());
    let st = step_of("audit", a, Some("cargo-audit".to_owned()));
    assert(st@.args =~= spec_check_steps()[4].args);
    steps.push(st);

    let mut a: Vec<String> = Vec::new();
    a.push("deny".to_owned());
    a.push("check".to_owned());
    let st = step_of("deny", a, Some("cargo-deny".to_owned()));
    assert(st@.args =~= spec_check_steps()[5].args);
    steps.push(st);

    steps
}

// ---------------------------------------------------------------------------
// The run
// ---------------------------------------------------------------------------

/// Why the run ends.
#[derive(Debug, Clone, Copy, PartialEq, Eq, Structural)]
pub enum ExitCause {
    AllPassed,
    StepFailed(usize),
    Missing(usize),
}

/// Where the run stands.
#[derive(Debug, Clone, Copy, PartialEq, Eq, Structural)]
pub enum RunnerState {
    /// Step `i` is running.
    Running(usize),
    /// The runner is asking whether the subcommand of optional step `i` is installed.
    Checking(usize),
    /// Optional step `i` is being skipped with a warning.
    Skipping(usize),
    /// The run has ended with this exit code.
    Finished(u8, ExitCause),
}

/// What the runner learns from the outside.
#[derive(Debug, Clone, Copy, PartialEq, Eq, Structural)]
pub enum RunnerEvent {
    /// The running step's process ended with this code (0: success; a
    /// process stopped without a code counts as 1).
    StepExited(i32),
    /// Whether the subcommand of the step being checked is installed.
    Listed(bool),
    /// The warning about the skipped step has been given.
    Warned,
}

/// What the runner asks the outside to do.
#[derive(Debug, Clone, Copy, PartialEq, Eq, Structural)]
pub enum RunnerAction {
    RunStep(usize),
    CheckInstalled(usize),
    WarnAndSkip(usize),
    Exit(u8, ExitCause),
}

/// Starting step `i`: a required step runs; an optional one is first checked
/// for; past the last step the run passes.
pub open spec fn spec_begin_step(i: int) -> (RunnerState, RunnerAction) {
    if i >= spec_check_steps().len() {
        (
            RunnerState::Finished(0, ExitCause::AllPassed),
            RunnerAction::Exit(0, ExitCause::AllPassed),
        )
    } else if step_required(i) {
        (RunnerState::Running(i as usize), RunnerAction::RunStep(i as usize))
    } else {
        (RunnerState::Checking(i as usize), RunnerAction::CheckInstalled(i as usize))
    }
}

/// The action that a state waits on.
pub open spec fn pending_action(state: RunnerState) -> RunnerAction {
    match state {
        RunnerState::Running(i) => RunnerAction::RunStep(i),
        RunnerState::Checking(i) => RunnerAction::CheckInstalled(i),
        RunnerState::Skipping(i) => RunnerAction::WarnAndSkip(i),
        RunnerState::Finished(c, w) => RunnerAction::Exit(c, w),
    }
}

/// The runner's decision on `event` in `state`: a step that exits with 0
/// passes and the next step starts; a step that fails with code `c` ends the
/// run with `c as u8`; an optional step runs when its subcommand is listed,
/// ends the run with 1 when it is missing in strict mode, and is skipped with
/// a warning otherwise. An event the state does not wait for changes nothing.
pub open spec fn spec_next_runner_action(
    state: RunnerState,
    event: RunnerEvent,
    strict: bool,
) -> (RunnerState, RunnerAction) {
    match state {
        RunnerState::Running(i) => match event {
            RunnerEvent::StepExited(c) => if c == 0 {
                spec_begin_step(i + 1)
            } else {
                (
                    RunnerState::Finished(c as u8, ExitCause::StepFailed(i)),
                    RunnerAction::Exit(c as u8, ExitCause::StepFailed(i)),
                )
            },
            _ => (state, pending_action(state)),
        },
        RunnerState::Checking(i) => match event {
            RunnerEvent::Listed(true) => (RunnerState::Running(i), RunnerAction::RunStep(i)),
            RunnerEvent::Listed(false) => if strict {
                (
                    RunnerState::Finished(1, ExitCause::Missing(i)),
                    RunnerAction::Exit(1, ExitCause::Missing(i)),
                )
            } else {
                (RunnerState::Skipping(i), RunnerAction::WarnAndSkip(i))
            },
            _ => (state, pending_action(state)),
        },
        RunnerState::Skipping(i) => match event {
            RunnerEvent::Warned => spec_begin_step(i + 1),
            _ => (state, pending_action(state)),
        },
        RunnerState::Finished(_, _) => (state, pending_action(state)),
    }
}

/// Whether step `i` of the list is required.
fn is_required_step(i: usize) -> (r: bool)
    requires
        i < spec_check_steps().len(),
    ensures
        r == step_required(i as int),
{
    i < 4
}

fn begin_step(i: usize) -> (r: (RunnerState, RunnerAction))
    ensures
        r == spec_begin_step(i as int),
{
    if i >= 6 {
        (RunnerState::Finished(0, ExitCause::AllPassed), RunnerAction::Exit(0, ExitCause::AllPassed))
    } else if is_required_step(i) {
        (RunnerState::Running(i), RunnerAction::RunStep(i))
    } else {
        (RunnerState::Checking(i), RunnerAction::CheckInstalled(i))
    }
}

/// The step after `i`.
fn begin_step_after(i: usize) -> (r: (RunnerState, RunnerAction))
    ensures
        r == spec_begin_step(i + 1),
{
    if i >= 6 {
        (RunnerState::Finished(0, ExitCause::AllPassed), RunnerAction::Exit(0, ExitCause::AllPassed))
    } else {
        begin_step(i + 1)
    }
}

/// How a run begins: with the first step.
pub fn first_runner_action() -> (r: (RunnerState, RunnerAction))
    ensures
        r == spec_begin_step(0),
{
    begin_step(0)
}

/// The runner's decision on `event` in `state` (see `spec_next_runner_action`).
pub fn next_runner_action(state: RunnerState, event: RunnerEvent, strict: bool) -> (r: (
    RunnerState,
    RunnerAction,
))
    ensures
        r == spec_next_runner_action(state, event, strict),
{
    match state {
        RunnerState::Running(i) => match event {
            RunnerEvent::StepExited(c) => if c == 0 {
                begin_step_after(i)
            } else {
                let code = c as u8;
                (
                    RunnerState::Finished(code, ExitCause::StepFailed(i)),
                    RunnerAction::Exit(code, ExitCause::StepFailed(i)),
                )
            },
            _ => (state, RunnerAction::RunStep(i)),
        },
        RunnerState::Checking(i) => match event {
            RunnerEvent::Listed(true) => (RunnerState::Running(i), RunnerAction::RunStep(i)),
            RunnerEvent::Listed(false) => if strict {
                (
                    RunnerState::Finished(1, ExitCause::Missing(i)),
                    RunnerAction::Exit(1, ExitCause::Missing(i)),
                )
            } else {
                (RunnerState::Skipping(i), RunnerAction::WarnAndSkip(i))
            },
            _ => (state, RunnerAction::CheckInstalled(i)),
        },
        RunnerState::Skipping(i) => match event {
            RunnerEvent::Warned => begin_step_after(i),
            _ => (state, RunnerAction::WarnAndSkip(i)),
        },
        RunnerState::Finished(c, w) => (state, RunnerAction::Exit(c, w)),
    }
}

// ---------------------------------------------------------------------------
// Laws of the run
// ---------------------------------------------------------------------------

/// The required steps run in order from the first: a run starts with step 0,
/// each passing required step is followed by the next one (the last by the
/// check for the first optional step), and a failing step ends the run with
/// its exit code, whatever the mode.
pub proof fn required_steps_run_in_order(i: usize, c: i32, strict: bool)
    requires
        i < 4,
    ensures
        spec_begin_step(0) == (RunnerState::Running(0), RunnerAction::RunStep(0)),
        step_required(i as int),
        i < 3 ==> spec_next_runner_action(RunnerState::Running(i), RunnerEvent::StepExited(0), strict)
            == (RunnerState::Running((i + 1) as usize), RunnerAction::RunStep((i + 1) as usize)),
        i == 3 ==> spec_next_runner_action(RunnerState::Running(i), RunnerEvent::StepExited(0), strict)
            == (RunnerState::Checking(4), RunnerAction::CheckInstalled(4)),
        c != 0 ==> spec_next_runner_action(RunnerState::Running(i), RunnerEvent::StepExited(c), strict)
            == (
            RunnerState::Finished(c as u8, ExitCause::StepFailed(i)),
            RunnerAction::Exit(c as u8, ExitCause::StepFailed(i)),
        ),
{
}

/// An optional step (`audit`, `deny`) runs when its subcommand is listed; when
/// it is missing, strict mode ends the run with 1 and otherwise the step is
/// skipped with a warning and the run goes on; after the last step passes or
/// is skipped the run ends with 0.
pub proof fn optional_steps_run_or_are_skipped(i: usize, strict: bool)
    requires
        4 <= i < 6,
    ensures
        !step_required(i as int),
        spec_next_runner_action(RunnerState::Checking(i), RunnerEvent::Listed(true), strict) == (
            RunnerState::Running(i),
            RunnerAction::RunStep(i),
        ),
        strict ==> spec_next_runner_action(RunnerState::Checking(i), RunnerEvent::Listed(false), strict)
            == (RunnerState::Finished(1, ExitCause::Missing(i)), RunnerAction::Exit(1, ExitCause::Missing(i))),
        !strict ==> spec_next_runner_action(RunnerState::Checking(i), RunnerEvent::Listed(false), strict)
            == (RunnerState::Skipping(i), RunnerAction::WarnAndSkip(i)),
        spec_next_runner_action(RunnerState::Skipping(i), RunnerEvent::Warned, strict)
            == spec_next_runner_action(RunnerState::Running(i), RunnerEvent::StepExited(0), strict),
        i == 4 ==> spec_next_runner_action(RunnerState::Skipping(i), RunnerEvent::Warned, strict) == (
            RunnerState::Checking(5),
            RunnerAction::CheckInstalled(5),
        ),
        i == 5 ==> spec_next_runner_action(RunnerState::Skipping(i), RunnerEvent::Warned, strict) == (
            RunnerState::Finished(0, ExitCause::AllPassed),
            RunnerAction::Exit(0, ExitCause::AllPassed),
        ),
{
}

/// An optional step never runs unless its subcommand was just reported
/// installed (or it was already running), and nothing is skipped in strict
/// mode unless it was already being skipped.
pub proof fn optional_steps_run_only_when_listed(
    state: RunnerState,
    event: RunnerEvent,
    strict: bool,
    i: usize,
)
    requires
        4 <= i < 6,
    ensures
        spec_next_runner_action(state, event, strict).1 == RunnerAction::RunStep(i) ==> (state
            == RunnerState::Running(i) || (state == RunnerState::Checking(i) && event
            == RunnerEvent::Listed(true))),
        strict && spec_next_runner_action(state, event, strict).1 == RunnerAction::WarnAndSkip(i)
            ==> state == RunnerState::Skipping(i),
{
}

/// Any step that fails, required or optional, ends the run with its exit code
/// (taken as a byte, as a process exit code is), in either mode.
pub proof fn failing_step_ends_run(i: usize, c: i32, strict: bool)
    requires
        i < spec_check_steps().len(),
        c != 0,
    ensures
        spec_next_runner_action(RunnerState::Running(i), RunnerEvent::StepExited(c), strict) == (
            RunnerState::Finished(c as u8, ExitCause::StepFailed(i)),
            RunnerAction::Exit(c as u8, ExitCause::StepFailed(i)),
        ),
{
}

/// Strict mode is asked for exactly by `1`, or by `true` or `yes` written in
/// any mix of ASCII upper and lower case.
pub proof fn strict_values_are_one_true_yes(v: Seq<char>)
    ensures
        spec_is_strict_value(v) <==> (v == seq!['1'] || lower(v) == seq!['t', 'r', 'u', 'e']
            || lower(v) == seq!['y', 'e', 's']),
{
    assert(lower(seq!['t', 'r', 'u', 'e']) =~= seq!['t', 'r', 'u', 'e']);
    assert(lower(seq!['y', 'e', 's']) =~= seq!['y', 'e', 's']);
}

/// An event that the state is not waiting for changes nothing: the state stays
/// and the action it waits on is asked for again; a finished run stays
/// finished with the same exit.
pub proof fn unexpected_events_change_nothing(state: RunnerState, event: RunnerEvent, strict: bool)
    ensures
        match state {
            RunnerState::Running(i) => !(event is StepExited) ==> spec_next_runner_action(
                state,
                event,
                strict,
            ) == (state, RunnerAction::RunStep(i)),
            RunnerState::Checking(i) => !(event is Listed) ==> spec_next_runner_action(
                state,
                event,
                strict,
            ) == (state, RunnerAction::CheckInstalled(i)),
            RunnerState::Skipping(i) => !(event is Warned) ==> spec_next_runner_action(
                state,
                event,
                strict,
            ) == (state, RunnerAction::WarnAndSkip(i)),
            RunnerState::Finished(c, w) => spec_next_runner_action(state, event, strict) == (
                state,
                RunnerAction::Exit(c, w),
            ),
        },
{
}

/// The subcommand `name` (a nonempty word without whitespace) is named by a
/// line that holds it after leading whitespace and before whitespace or the
/// end of the line, and not by a line where it is only the start of a longer
/// word.
pub proof fn subcommand_named_by_whole_word(w: Seq<char>, name: Seq<char>, rest: Seq<char>, c: char)
    requires
        forall|i: int| 0 <= i < w.len() ==> is_ws(#[trigger] w[i]),
        name.len() > 0,
        forall|i: int| 0 <= i < name.len() ==> !is_ws(#[trigger] name[i]),
        rest.len() == 0 || is_ws(rest[0]),
        !is_ws(c),
    ensures
        names_subcommand(w + name + rest, name),
        !names_subcommand(w + name + seq![c] + rest, name),
{
    lemma_trim_start_ws_prefix(w, name + rest);
    assert(w + name + rest =~= w + (name + rest));
    assert(w + name + seq![c] + rest =~= w + (name + seq![c] + rest));
    lemma_trim_start_ws_prefix(w, name + seq![c] + rest);
    lemma_first_word_prefix(name, rest);
    lemma_first_word_prefix(name + seq![c], rest);
    assert(name + seq![c] + rest =~= (name + seq![c]) + rest);
    assert((name + seq![c]).len() != name.len());
    assert forall|i: int| 0 <= i < (name + seq![c]).len() implies !is_ws(
        #[trigger] (name + seq![c])[i],
    ) by {
        if i < name.len() {
            assert((name + seq![c])[i] == name[i]);
        }
    }
    assert(name[0] == (name + rest)[0]);
}

/// The first word of a word followed by whitespace (or nothing) is that word.
proof fn lemma_first_word_prefix(word: Seq<char>, rest: Seq<char>)
    requires
        forall|i: int| 0 <= i < word.len() ==> !is_ws(#[trigger] word[i]),
        rest.len() == 0 || is_ws(rest[0]),
    ensures
        first_word(word + rest) == word,
    decreases word.len(),
{
    if word.len() == 0 {
        assert(word + rest =~= rest);
    } else {
        let s = word + rest;
        assert(s[0] == word[0]);
        assert(s.drop_first() =~= word.drop_first() + rest);
        assert forall|i: int| 0 <= i < word.drop_first().len() implies !is_ws(
            #[trigger] word.drop_first()[i],
        ) by {
            assert(word.drop_first()[i] == word[i + 1]);
        }
        lemma_first_word_prefix(word.drop_first(), rest);
        assert(seq![word[0]] + word.drop_first() =~= word);
    }
}

} // verus!
