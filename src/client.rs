use vstd::prelude::*;
use crate::value::{
    from_wire, host_entries_model, host_of, to_wire, wire_entries_model, wire_of,
    ConversionError, Host, HostValue, TaggedValue, Wire,
};

verus! {

/// The three-way result of running a remote function.
#[derive(Debug, PartialEq, Eq)]
pub enum FunctionOutcome {
    Value(TaggedValue),
    ErrorMessage(String),
    Structured { message: String, data: TaggedValue },
}

/// An application error that carries a message and a converted payload.
#[derive(Debug, PartialEq, Eq)]
pub struct ConvexError {
    pub message: String,
    pub data: HostValue,
}

impl ConvexError {
    pub fn new(message: String, data: HostValue) -> (r: Self)
        ensures
            r.message == message,
            r.data == data,
    {
        ConvexError { message, data }
    }

    /// The error reads as its message.
    pub fn to_string(&self) -> (r: String)
        ensures
            r@ == self.message@,
    {
        self.message.clone()
    }

    /// The constructor arguments, message first.
    pub fn arguments(self) -> (r: (String, HostValue))
        ensures
            r.0 == self.message,
            r.1 == self.data,
    {
        (self.message, self.data)
    }
}

/// Every way a blocking call can fail.
#[derive(Debug, PartialEq, Eq)]
pub enum CallError {
    /// An argument had no wire form; nothing was sent.
    Conversion(ConversionError),
    /// The watchdog saw a pending interrupt before the operation completed.
    Interrupted,
    /// The operation failed in the network or protocol layer.
    Transport(String),
    /// The remote function failed with a plain message.
    Application(String),
    /// The remote function failed with a structured error.
    Structured(ConvexError),
}

/// What the race between an operation and the watchdog ended with.
#[derive(Debug, PartialEq, Eq)]
pub enum RaceOutcome<T> {
    Completed(T),
    Failed(String),
    Interrupted,
}

/// The kinds of remote call that return a single outcome.
#[derive(Clone, Copy, Debug, PartialEq, Eq, Structural)]
pub enum CallKind {
    Query,
    Mutation,
    Action,
    Subscribe,
}

/// A call ready to be submitted: its arguments are already in wire form.
#[derive(Debug, PartialEq, Eq)]
pub struct CallRequest {
    pub kind: CallKind,
    pub name: String,
    pub args: Vec<(String, TaggedValue)>,
}

/// What the caller sees for a completed remote function.
pub open spec fn converts_outcome(o: FunctionOutcome, r: Result<HostValue, CallError>) -> bool {
    match o {
        FunctionOutcome::Value(t) => r is Ok && r->Ok_0@ == host_of(t@),
        FunctionOutcome::ErrorMessage(m) => r is Err && r->Err_0 is Application
            && r->Err_0->Application_0@ == m@,
        FunctionOutcome::Structured { message, data } => r is Err && r->Err_0 is Structured
            && r->Err_0->Structured_0.message@ == message@
            && r->Err_0->Structured_0.data@ == host_of(data@),
    }
}

/// Exactly one of value, plain error and structured error.
pub open spec fn one_outcome(r: Result<HostValue, CallError>) -> bool {
    let v = r is Ok;
    let m = r is Err && r->Err_0 is Application;
    let s = r is Err && r->Err_0 is Structured;
    (v && !m && !s) || (!v && m && !s) || (!v && !m && s)
}

/// Converts a completed function outcome to the caller's value or error.
pub fn outcome_result(o: &FunctionOutcome) -> (r: Result<HostValue, CallError>)
    ensures
        converts_outcome(*o, r),
        one_outcome(r),
{
    match o {
        FunctionOutcome::Value(t) => Ok(from_wire(t)),
        FunctionOutcome::ErrorMessage(m) => Err(CallError::Application(m.clone())),
        FunctionOutcome::Structured { message, data } => Err(
            CallError::Structured(ConvexError::new(message.clone(), from_wire(data))),
        ),
    }
}

/// Converts optional call arguments to wire entries sorted by key. Absent
/// arguments are an empty mapping.
pub fn convert_args(args: Option<Vec<(HostValue, HostValue)>>) -> (r: Result<
    Vec<(String, TaggedValue)>,
    ConversionError,
>)
    ensures
        args is None ==> r is Ok && r->Ok_0@.len() == 0,
        args is Some ==> match r {
            Ok(es) => wire_of(Host::Dict(host_entries_model(args->Some_0@)))
                == Ok::<Wire, ConversionError>(Wire::Object(wire_entries_model(es@))),
            Err(e) => wire_of(Host::Dict(host_entries_model(args->Some_0@)))
                == Err::<Wire, ConversionError>(e),
        },
{
    match args {
        None => Ok(Vec::new()),
        Some(es) => {
            let h = HostValue::Dict(es);
            match to_wire(&h) {
                Ok(TaggedValue::Object(entries)) => Ok(entries),
                Ok(_) => {
                    proof {
                        assert(false);
                    }
                    Ok(Vec::new())
                },
                Err(e) => Err(e),
            }
        },
    }
}

/// Builds the request for a call. A conversion failure is reported here,
/// before anything is submitted.
pub fn prepare_call(kind: CallKind, name: String, args: Option<Vec<(HostValue, HostValue)>>) -> (r:
    Result<CallRequest, CallError>)
    ensures
        args is None ==> r is Ok && r->Ok_0.args@.len() == 0,
        args is Some ==> match wire_of(Host::Dict(host_entries_model(args->Some_0@))) {
            Ok(w) => r is Ok && Wire::Object(wire_entries_model(r->Ok_0.args@)) == w,
            Err(e) => r is Err && r->Err_0 == CallError::Conversion(e),
        },
        r is Ok ==> r->Ok_0.kind == kind && r->Ok_0.name == name,
{
    match convert_args(args) {
        Ok(entries) => Ok(CallRequest { kind, name, args: entries }),
        Err(e) => Err(CallError::Conversion(e)),
    }
}

/// The caller's result for a query, mutation or action, once the race with
/// the watchdog is over.
pub fn finish_call(race: RaceOutcome<FunctionOutcome>) -> (r: Result<HostValue, CallError>)
    ensures
        match race {
            RaceOutcome::Completed(o) => converts_outcome(o, r) && one_outcome(r),
            RaceOutcome::Failed(m) => r == Err::<HostValue, CallError>(CallError::Transport(m)),
            RaceOutcome::Interrupted => r == Err::<HostValue, CallError>(CallError::Interrupted),
        },
{
    match race {
        RaceOutcome::Completed(o) => outcome_result(&o),
        RaceOutcome::Failed(m) => Err(CallError::Transport(m)),
        RaceOutcome::Interrupted => Err(CallError::Interrupted),
    }
}

/// The caller's result for a subscription request: the stream on success.
pub fn finish_subscribe<S>(race: RaceOutcome<S>) -> (r: Result<S, CallError>)
    ensures
        match race {
            RaceOutcome::Completed(s) => r == Ok::<S, CallError>(s),
            RaceOutcome::Failed(m) => r == Err::<S, CallError>(CallError::Transport(m)),
            RaceOutcome::Interrupted => r == Err::<S, CallError>(CallError::Interrupted),
        },
{
    match race {
        RaceOutcome::Completed(s) => Ok(s),
        RaceOutcome::Failed(m) => Err(CallError::Transport(m)),
        RaceOutcome::Interrupted => Err(CallError::Interrupted),
    }
}

/// Polling period of the watchdog, in milliseconds.
pub const WATCHDOG_INTERVAL_MS: u64 = 1000;

/// What the watchdog does after each sleep.
#[derive(Clone, Copy, Debug, PartialEq, Eq, Structural)]
pub enum WatchdogAction {
    SleepAgain,
    Fail,
}

/// The watchdog fails as soon as it sees a pending interrupt, and otherwise
/// sleeps another interval.
pub fn watchdog_check(interrupt_pending: bool) -> (a: WatchdogAction)
    ensures
        a == (if interrupt_pending { WatchdogAction::Fail } else { WatchdogAction::SleepAgain }),
{
    if interrupt_pending {
        WatchdogAction::Fail
    } else {
        WatchdogAction::SleepAgain
    }
}

/// The instant (in milliseconds from the start of the call) at which the
/// watchdog first polls at or after `t`; it polls at every positive multiple
/// of the interval.
pub open spec fn first_poll_at_or_after(t: nat) -> nat {
    let i = WATCHDOG_INTERVAL_MS as nat;
    if t <= i {
        i
    } else {
        (((t - 1) as nat / i) + 1) * i
    }
}

/// A call whose operation never completes, with an interrupt pending from `t`
/// milliseconds on, ends with `Interrupted` at the watchdog's next poll: at a
/// poll instant no earlier than `t` and no later than one interval after it;
/// every earlier poll came before the interrupt.
pub proof fn lemma_interrupt_bound(t: nat)
    ensures
        t <= first_poll_at_or_after(t) <= t + WATCHDOG_INTERVAL_MS,
        first_poll_at_or_after(t) >= WATCHDOG_INTERVAL_MS,
        first_poll_at_or_after(t) % (WATCHDOG_INTERVAL_MS as nat) == 0,
        forall|k: nat|
            k >= 1 && #[trigger] (k * (WATCHDOG_INTERVAL_MS as nat)) < first_poll_at_or_after(t) ==> k
                * (WATCHDOG_INTERVAL_MS as nat) < t,
{
    let i = WATCHDOG_INTERVAL_MS as nat;
    if t <= i {
        assert forall|k: nat| k >= 1 && #[trigger] (k * i) < first_poll_at_or_after(t) implies k * i < t by {
            assert(k * i >= i) by (nonlinear_arith)
                requires
                    k >= 1,
            ;
        }
    }
    if t > i {
        let u = (t - 1) as nat;
        let q = u / i;
        assert forall|k: nat| k >= 1 && #[trigger] (k * i) < (q + 1) * i implies k * i < t by {
            assert(k * i <= q * i) by (nonlinear_arith)
                requires
                    k * i < (q + 1) * i,
                    i > 0,
            ;
            assert(q * i <= u) by (nonlinear_arith)
                requires
                    i > 0,
                    q == u / i,
            ;
        }
        let u = (t - 1) as nat;
        let q = u / i;
        assert(q * i <= u < q * i + i) by (nonlinear_arith)
            requires
                i > 0,
                q == u / i,
        ;
        assert((q + 1) * i == q * i + i) by (nonlinear_arith);
        assert(((q + 1) * i) % i == 0) by (nonlinear_arith)
            requires
                i > 0,
        ;
        assert(q >= 1) by (nonlinear_arith)
            requires
                u >= i,
                q == u / i,
                i > 0,
        ;
    }
}

/// What to do once the race between applying a token and the watchdog ends.
#[derive(Clone, Copy, Debug, PartialEq, Eq, Structural)]
pub enum AuthStep {
    Applied,
    /// The watchdog won: the auth change is in an unknown state and the
    /// process stops.
    Abort,
}

pub fn finish_set_auth(interrupted: bool) -> (s: AuthStep)
    ensures
        s == (if interrupted { AuthStep::Abort } else { AuthStep::Applied }),
{
    if interrupted {
        AuthStep::Abort
    } else {
        AuthStep::Applied
    }
}

} // verus!
