use convex_py::client::{CallError, FunctionOutcome};
use convex_py::subscription::{QueryEntry, QuerySetSubscription, QuerySubscription};
use convex_py::value::{HostValue, TaggedValue};

#[test]
fn pull_before_any_push_is_empty() {
    let s = QuerySubscription::new();
    assert_eq!(s.get(), None);
    assert_eq!(s.updates(), 0);
    assert!(s.is_active());
}

#[test]
fn pull_sees_latest_push() {
    let mut s = QuerySubscription::new();
    let mut last_seen: i128 = -1;
    for n in 0..5i64 {
        s.record(FunctionOutcome::Value(TaggedValue::Int64(n)));
        match s.get() {
            Some(Ok(HostValue::Int(i))) => {
                assert!(i >= last_seen);
                last_seen = i;
            },
            other => panic!("unexpected {:?}", other),
        }
    }
    assert_eq!(last_seen, 4);
    assert_eq!(s.updates(), 5);
}

#[test]
fn pull_after_several_pushes_is_the_newest() {
    let mut s = QuerySubscription::new();
    for n in 0..10i64 {
        s.record(FunctionOutcome::Value(TaggedValue::Int64(n)));
    }
    assert_eq!(s.get(), Some(Ok(HostValue::Int(9))));
    s.record(FunctionOutcome::ErrorMessage("gone".to_string()));
    assert_eq!(s.get(), Some(Err(CallError::Application("gone".to_string()))));
}

#[test]
fn released_handle_ignores_pushes() {
    let mut s = QuerySubscription::new();
    s.record(FunctionOutcome::Value(TaggedValue::Int64(1)));
    s.release();
    assert!(!s.is_active());
    s.record(FunctionOutcome::Value(TaggedValue::Int64(2)));
    assert_eq!(s.get(), Some(Ok(HostValue::Int(1))));
    assert_eq!(s.updates(), 1);
}

#[test]
fn query_set_pull_converts_each_entry() {
    let mut q = QuerySetSubscription::new();
    assert_eq!(q.get(), None);
    q.record(vec![
        QueryEntry { subscriber: "q1".to_string(), outcome: Some(FunctionOutcome::Value(TaggedValue::Boolean(true))) },
        QueryEntry { subscriber: "q2".to_string(), outcome: None },
    ]);
    q.record(vec![QueryEntry {
        subscriber: "q1".to_string(),
        outcome: Some(FunctionOutcome::ErrorMessage("bad".to_string())),
    }]);
    assert_eq!(q.updates(), 2);
    assert_eq!(
        q.get(),
        Some(vec![("q1".to_string(), Some(Err(CallError::Application("bad".to_string()))))])
    );
    q.release();
    q.record(vec![]);
    assert_eq!(q.updates(), 2);
}
