use convex_py::client::{
    finish_call, finish_set_auth, finish_subscribe, outcome_result, watchdog_check, AuthStep,
    CallError, ConvexError, FunctionOutcome, RaceOutcome, WatchdogAction, WATCHDOG_INTERVAL_MS,
};
use convex_py::value::{HostValue, TaggedValue};

fn hs(x: &str) -> HostValue {
    HostValue::Str(x.to_string())
}

#[test]
fn value_outcome_is_returned() {
    let r = finish_call(RaceOutcome::Completed(FunctionOutcome::Value(TaggedValue::Array(vec![
        TaggedValue::Int64(1),
        TaggedValue::String("two".to_string()),
    ]))));
    assert_eq!(r, Ok(HostValue::List(vec![HostValue::Int(1), hs("two")])));
}

#[test]
fn error_message_outcome_is_raised() {
    let r = finish_call(RaceOutcome::Completed(FunctionOutcome::ErrorMessage("Server Error".to_string())));
    assert_eq!(r, Err(CallError::Application("Server Error".to_string())));
}

#[test]
fn structured_error_keeps_message_and_data() {
    let r = finish_call(RaceOutcome::Completed(FunctionOutcome::Structured {
        message: "bad input".to_string(),
        data: TaggedValue::Object(vec![("field".to_string(), TaggedValue::String("x".to_string()))]),
    }));
    match r {
        Err(CallError::Structured(e)) => {
            assert_eq!(e.message, "bad input");
            assert_eq!(e.to_string(), "bad input");
            assert_eq!(e.data, HostValue::Dict(vec![(hs("field"), hs("x"))]));
        },
        other => panic!("unexpected {:?}", other),
    }
}

#[test]
fn structured_error_with_null_data() {
    let r = outcome_result(&FunctionOutcome::Structured {
        message: "m".to_string(),
        data: TaggedValue::Null,
    });
    assert_eq!(r, Err(CallError::Structured(ConvexError::new("m".to_string(), HostValue::Nothing))));
}

#[test]
fn each_outcome_gives_exactly_one_result_kind() {
    let outcomes = vec![
        FunctionOutcome::Value(TaggedValue::Boolean(true)),
        FunctionOutcome::ErrorMessage("e".to_string()),
        FunctionOutcome::Structured { message: "s".to_string(), data: TaggedValue::Int64(3) },
    ];
    let mut kinds = Vec::new();
    for o in outcomes {
        let r = finish_call(RaceOutcome::Completed(o));
        let v = r.is_ok();
        let m = matches!(r, Err(CallError::Application(_)));
        let s = matches!(r, Err(CallError::Structured(_)));
        assert_eq!((v as u8) + (m as u8) + (s as u8), 1);
        kinds.push((v, m, s));
    }
    assert_eq!(kinds, vec![(true, false, false), (false, true, false), (false, false, true)]);
}

#[test]
fn transport_failure_is_raised_with_message() {
    let r = finish_call(RaceOutcome::Failed("connection reset".to_string()));
    assert_eq!(r, Err(CallError::Transport("connection reset".to_string())));
}

#[test]
fn watchdog_win_is_an_interrupt() {
    assert_eq!(finish_call(RaceOutcome::Interrupted), Err(CallError::Interrupted));
    let s: Result<u32, CallError> = finish_subscribe(RaceOutcome::Interrupted);
    assert_eq!(s, Err(CallError::Interrupted));
}

#[test]
fn subscribe_hands_back_the_stream() {
    assert_eq!(finish_subscribe(RaceOutcome::Completed(42u32)), Ok(42));
    let f: Result<u32, CallError> = finish_subscribe(RaceOutcome::Failed("down".to_string()));
    assert_eq!(f, Err(CallError::Transport("down".to_string())));
}

#[test]
fn watchdog_polls_every_second() {
    assert_eq!(WATCHDOG_INTERVAL_MS, 1000);
    assert_eq!(watchdog_check(false), WatchdogAction::SleepAgain);
    assert_eq!(watchdog_check(true), WatchdogAction::Fail);
}

#[test]
fn interrupted_auth_change_aborts() {
    assert_eq!(finish_set_auth(true), AuthStep::Abort);
    assert_eq!(finish_set_auth(false), AuthStep::Applied);
}

#[test]
fn convex_error_arguments() {
    let e = ConvexError::new("oops".to_string(), HostValue::Int(9));
    assert_eq!(e.arguments(), ("oops".to_string(), HostValue::Int(9)));
}
