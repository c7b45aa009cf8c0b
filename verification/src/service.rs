//! Running as a Windows service: what each command does in each state of the service.
use vstd::prelude::*;
use vstd::string::*;

verus! {

pub const SERVICE_NAME: &'static str = "CodexCont";

/// How often a state is asked for before waiting for it is given up.
pub const MAX_QUERIES: u32 = 50;

/// The pause between two questions, in milliseconds.
pub const QUERY_PAUSE_MS: u64 = 200;

/// The state of a service.
#[derive(Clone, Copy, Debug, PartialEq, Eq, Structural)]
pub enum State {
    Stopped,
    StartPending,
    StopPending,
    Running,
    ContinuePending,
    PausePending,
    Paused,
}

/// The name of a state.
pub open spec fn state_name(s: State) -> Seq<char> {
    match s {
        State::Stopped => "Stopped"@,
        State::StartPending => "StartPending"@,
        State::StopPending => "StopPending"@,
        State::Running => "Running"@,
        State::ContinuePending => "ContinuePending"@,
        State::PausePending => "PausePending"@,
        State::Paused => "Paused"@,
    }
}

impl State {
    pub fn as_str(self) -> (r: &'static str)
        ensures
            r@ == state_name(self),
    {
        match self {
            State::Stopped => "Stopped",
            State::StartPending => "StartPending",
            State::StopPending => "StopPending",
            State::Running => "Running",
            State::ContinuePending => "ContinuePending",
            State::PausePending => "PausePending",
            State::Paused => "Paused",
        }
    }
}

/// What starting a service takes.
#[derive(Clone, Copy, Debug, PartialEq, Eq, Structural)]
pub enum StartStep {
    /// It runs already.
    Nothing,
    /// It is being started: wait until it runs.
    AwaitRunning,
    /// It is being stopped: wait until it has, then start it.
    AwaitStoppedThenStart,
    /// Start it, then wait until it runs.
    Start,
}

/// What starting takes in each state.
pub open spec fn starting(state: State) -> StartStep {
    match state {
        State::Running => StartStep::Nothing,
        State::StartPending => StartStep::AwaitRunning,
        State::StopPending => StartStep::AwaitStoppedThenStart,
        _ => StartStep::Start,
    }
}

pub fn start_step(state: State) -> (r: StartStep)
    ensures
        r == starting(state),
        r == (match state {
            State::Running => StartStep::Nothing,
            State::StartPending => StartStep::AwaitRunning,
            State::StopPending => StartStep::AwaitStoppedThenStart,
            _ => StartStep::Start,
        }),
{
    match state {
        State::Running => StartStep::Nothing,
        State::StartPending => StartStep::AwaitRunning,
        State::StopPending => StartStep::AwaitStoppedThenStart,
        _ => StartStep::Start,
    }
}

/// What stopping a service takes.
#[derive(Clone, Copy, Debug, PartialEq, Eq, Structural)]
pub enum StopStep {
    /// It has stopped already.
    Nothing,
    /// It is being stopped: wait until it has.
    AwaitStopped,
    /// Stop it, then wait until it has stopped.
    Stop,
}

/// What stopping takes in each state.
pub open spec fn stopping(state: State) -> StopStep {
    match state {
        State::Stopped => StopStep::Nothing,
        State::StopPending => StopStep::AwaitStopped,
        _ => StopStep::Stop,
    }
}

pub fn stop_if_needed(state: State) -> (r: StopStep)
    ensures
        r == stopping(state),
        r == (match state {
            State::Stopped => StopStep::Nothing,
            State::StopPending => StopStep::AwaitStopped,
            _ => StopStep::Stop,
        }),
{
    match state {
        State::Stopped => StopStep::Nothing,
        State::StopPending => StopStep::AwaitStopped,
        _ => StopStep::Stop,
    }
}

/// What follows when the state of a service that is waited for is known.
#[derive(Clone, Copy, Debug, PartialEq, Eq, Structural)]
pub enum WaitStep {
    Reached,
    AskAgain,
    GiveUp,
}

/// What follows from the state that a service is in, at each question.
pub open spec fn waiting(asked: u32, state: State, target: State) -> WaitStep {
    if state == target {
        WaitStep::Reached
    } else if asked < MAX_QUERIES {
        WaitStep::AskAgain
    } else {
        WaitStep::GiveUp
    }
}

/// What follows from the state that a service is in at the question number `asked`, counted from
/// one.
pub fn wait_step(asked: u32, state: State, target: State) -> (r: WaitStep)
    ensures
        r == waiting(asked, state, target),
        r == if state == target {
            WaitStep::Reached
        } else if asked < MAX_QUERIES {
            WaitStep::AskAgain
        } else {
            WaitStep::GiveUp
        },
{
    if state == target {
        WaitStep::Reached
    } else if asked < MAX_QUERIES {
        WaitStep::AskAgain
    } else {
        WaitStep::GiveUp
    }
}

/// The error when a service was waited for in vain.
pub fn not_reached(target: State) -> (r: String)
    ensures
        r@ == SERVICE_NAME@ + " service did not reach "@ + state_name(target),
{
    let mut out = SERVICE_NAME.to_owned();
    out.append(" service did not reach ");
    out.append(target.as_str());
    out
}

/// How long each state may last, in seconds.
pub open spec fn lasting(state: State) -> u64 {
    if state == State::StartPending || state == State::StopPending {
        10
    } else {
        0
    }
}

/// How long a state that is reported may last, in seconds.
pub fn wait_hint(state: State) -> (r: u64)
    ensures
        r == lasting(state),
        r == if state == State::StartPending || state == State::StopPending {
            10u64
        } else {
            0u64
        },
{
    match state {
        State::StartPending => 10,
        State::StopPending => 10,
        _ => 0,
    }
}

/// What a service is told to do.
#[derive(Clone, Copy, Debug, PartialEq, Eq, Structural)]
pub enum Control {
    Interrogate,
    Stop,
    Other,
}

/// How a service answers what it is told to do: whether it shuts down, and whether it knows how
/// to obey.
pub fn on_control(control: Control) -> (r: (bool, bool))
    ensures
        r.0 == (control == Control::Stop),
        r.1 == (control != Control::Other),
{
    match control {
        Control::Interrogate => (false, true),
        Control::Stop => (true, true),
        Control::Other => (false, false),
    }
}

/// The error of every service command where there are no Windows services.
pub open spec fn is_unsupported(r: Result<(), String>) -> bool {
    r matches Err(e) && e@ == "Windows service commands are only supported on Windows."@
}

pub fn unsupported() -> (r: Result<(), String>)
    ensures
        is_unsupported(r),
{
    Err("Windows service commands are only supported on Windows.".to_owned())
}

pub fn run() -> (r: Result<(), String>)
    ensures
        is_unsupported(r),
{
    unsupported()
}

pub fn install() -> (r: Result<(), String>)
    ensures
        is_unsupported(r),
{
    unsupported()
}

pub fn uninstall() -> (r: Result<(), String>)
    ensures
        is_unsupported(r),
{
    unsupported()
}

pub fn start() -> (r: Result<(), String>)
    ensures
        is_unsupported(r),
{
    unsupported()
}

pub fn stop() -> (r: Result<(), String>)
    ensures
        is_unsupported(r),
{
    unsupported()
}

pub fn restart() -> (r: Result<(), String>)
    ensures
        is_unsupported(r),
{
    unsupported()
}

/// A service is started in every state but those in which it runs, is being started, or has to
/// stop first; starting one that runs does nothing.
pub proof fn law_starting(state: State)
    ensures
        starting(state) == StartStep::Nothing <==> state == State::Running,
        starting(state) == StartStep::AwaitRunning <==> state == State::StartPending,
        starting(state) == StartStep::AwaitStoppedThenStart <==> state == State::StopPending,
        state == State::Stopped || state == State::Paused || state == State::PausePending || state
            == State::ContinuePending ==> starting(state) == StartStep::Start,
{
}

/// A service is stopped in every state but those in which it has stopped or is being stopped.
pub proof fn law_stopping(state: State)
    ensures
        stopping(state) == StopStep::Nothing <==> state == State::Stopped,
        stopping(state) == StopStep::AwaitStopped <==> state == State::StopPending,
        state != State::Stopped && state != State::StopPending ==> stopping(state)
            == StopStep::Stop,
{
}

/// A service that never gets to a state is asked for it fifty times in ten seconds; one that gets
/// there is not asked again, and is not given up.
pub proof fn law_waiting(asked: u32, state: State, target: State)
    ensures
        waiting(asked, state, target) == WaitStep::Reached <==> state == target,
        state != target ==> (waiting(asked, state, target) == WaitStep::AskAgain <==> asked < 50),
        state != target ==> (waiting(asked, state, target) == WaitStep::GiveUp <==> asked >= 50),
        MAX_QUERIES * QUERY_PAUSE_MS == 10_000,
{
}

/// Only a state on the way to another one lasts, and it is given ten seconds.
pub proof fn law_lasting(state: State)
    ensures
        lasting(state) > 0 <==> starting(state) == StartStep::AwaitRunning || stopping(state)
            == StopStep::AwaitStopped,
        lasting(state) == 0 || lasting(state) == 10,
{
}

/// Different states have different names.
pub proof fn law_state_names(a: State, b: State)
    ensures
        state_name(a) == state_name(b) ==> a == b,
{
    reveal_strlit("Stopped");
    reveal_strlit("StartPending");
    reveal_strlit("StopPending");
    reveal_strlit("Running");
    reveal_strlit("ContinuePending");
    reveal_strlit("PausePending");
    reveal_strlit("Paused");
    assert("Stopped"@.len() == 7 && "Stopped"@[0] == 'S');
    assert("Running"@.len() == 7 && "Running"@[0] == 'R');
    assert("StartPending"@.len() == 12 && "StartPending"@[0] == 'S');
    assert("PausePending"@.len() == 12 && "PausePending"@[0] == 'P');
    assert("StopPending"@.len() == 11);
    assert("ContinuePending"@.len() == 15);
    assert("Paused"@.len() == 6);
}

} // verus!
