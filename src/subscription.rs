use vstd::prelude::*;
use crate::client::{converts_outcome, outcome_result, CallError, FunctionOutcome};
use crate::value::HostValue;

verus! {

/// Abstract state of a subscription handle: the latest outcome pushed by the
/// server, how many pushes were seen (saturating), and whether the stream is
/// still registered.
pub struct SubscriptionView {
    pub latest: Option<FunctionOutcome>,
    pub updates: u64,
    pub active: bool,
}

pub open spec fn saturating_inc(n: u64) -> u64 {
    if n == u64::MAX {
        n
    } else {
        (n + 1) as u64
    }
}

/// The state after the server pushes `o`: a released handle ignores pushes.
pub open spec fn after_push(s: SubscriptionView, o: FunctionOutcome) -> SubscriptionView {
    if s.active {
        SubscriptionView { latest: Some(o), updates: saturating_inc(s.updates), active: true }
    } else {
        s
    }
}

/// The state after the server pushes every outcome of `us`, in order.
pub open spec fn after_pushes(s: SubscriptionView, us: Seq<FunctionOutcome>) -> SubscriptionView
    decreases us.len(),
{
    if us.len() == 0 {
        s
    } else {
        after_push(after_pushes(s, us.drop_last()), us.last())
    }
}

/// Buffer of one live query subscription: the stream is drained in the
/// background into `record`, and `get` pulls the latest snapshot.
pub struct QuerySubscription {
    latest: Option<FunctionOutcome>,
    updates: u64,
    active: bool,
}

impl View for QuerySubscription {
    type V = SubscriptionView;

    closed spec fn view(&self) -> SubscriptionView {
        SubscriptionView { latest: self.latest, updates: self.updates, active: self.active }
    }
}

impl QuerySubscription {
    pub fn new() -> (r: Self)
        ensures
            r@ == (SubscriptionView { latest: None, updates: 0, active: true }),
    {
        QuerySubscription { latest: None, updates: 0, active: true }
    }

    /// Records an outcome pushed by the server.
    pub fn record(&mut self, o: FunctionOutcome)
        ensures
            final(self)@ == after_push(old(self)@, o),
    {
        if self.active {
            self.latest = Some(o);
            if self.updates < u64::MAX {
                self.updates = self.updates + 1;
            }
        }
    }

    /// The latest snapshot, converted for the caller; `None` before the first push.
    pub fn get(&self) -> (r: Option<Result<HostValue, CallError>>)
        ensures
            self@.latest is None ==> r is None,
            self@.latest is Some ==> r is Some && converts_outcome(self@.latest->Some_0, r->Some_0),
    {
        match &self.latest {
            None => None,
            Some(o) => Some(outcome_result(o)),
        }
    }

    /// Number of pushes seen so far (saturating).
    pub fn updates(&self) -> (r: u64)
        ensures
            r == self@.updates,
    {
        self.updates
    }

    pub fn is_active(&self) -> (r: bool)
        ensures
            r == self@.active,
    {
        self.active
    }

    /// Releases the stream registration: later pushes are ignored and the
    /// last snapshot stays readable.
    pub fn release(&mut self)
        ensures
            final(self)@ == (SubscriptionView { active: false, ..old(self)@ }),
    {
        self.active = false;
    }
}

/// Pulls never regress: after any run of pushes the update count has not
/// decreased, and on a live handle with at least one push the snapshot is the
/// last outcome pushed.
pub proof fn lemma_snapshot_fresh(s: SubscriptionView, us: Seq<FunctionOutcome>)
    ensures
        after_pushes(s, us).updates >= s.updates,
        after_pushes(s, us).active == s.active,
        s.active && us.len() > 0 ==> after_pushes(s, us).latest == Some(us.last()),
    decreases us.len(),
{
    if us.len() > 0 {
        lemma_snapshot_fresh(s, us.drop_last());
    }
}

/// One query's latest result in a query-set snapshot; `outcome` is `None`
/// while the query has no result yet.
#[derive(Debug, PartialEq, Eq)]
pub struct QueryEntry {
    pub subscriber: String,
    pub outcome: Option<FunctionOutcome>,
}

/// Abstract state of a query-set handle.
pub struct QuerySetView {
    pub latest: Option<Seq<QueryEntry>>,
    pub updates: u64,
    pub active: bool,
}

/// Buffer of the "every active query" stream.
pub struct QuerySetSubscription {
    latest: Option<Vec<QueryEntry>>,
    updates: u64,
    active: bool,
}

impl View for QuerySetSubscription {
    type V = QuerySetView;

    closed spec fn view(&self) -> QuerySetView {
        QuerySetView {
            latest: match self.latest {
                Some(v) => Some(v@),
                None => None,
            },
            updates: self.updates,
            active: self.active,
        }
    }
}

/// A pulled query-set entry matches the buffered one.
pub open spec fn converts_entry(
    e: QueryEntry,
    r: (String, Option<Result<HostValue, CallError>>),
) -> bool {
    &&& r.0@ == e.subscriber@
    &&& e.outcome is None ==> r.1 is None
    &&& e.outcome is Some ==> r.1 is Some && converts_outcome(e.outcome->Some_0, r.1->Some_0)
}

impl QuerySetSubscription {
    pub fn new() -> (r: Self)
        ensures
            r@ == (QuerySetView { latest: None, updates: 0, active: true }),
    {
        QuerySetSubscription { latest: None, updates: 0, active: true }
    }

    /// Records a snapshot of every active query pushed by the server.
    pub fn record(&mut self, results: Vec<QueryEntry>)
        ensures
            old(self)@.active ==> final(self)@ == (QuerySetView {
                latest: Some(results@),
                updates: saturating_inc(old(self)@.updates),
                active: true,
            }),
            !old(self)@.active ==> final(self)@ == old(self)@,
    {
        if self.active {
            self.latest = Some(results);
            if self.updates < u64::MAX {
                self.updates = self.updates + 1;
            }
        }
    }

    /// The latest snapshot, converted for the caller, in the order pushed.
    pub fn get(&self) -> (r: Option<Vec<(String, Option<Result<HostValue, CallError>>)>>)
        ensures
            self@.latest is None ==> r is None,
            self@.latest is Some ==> r is Some && r->Some_0@.len() == self@.latest->Some_0.len()
                && forall|i: int|
                0 <= i < r->Some_0@.len() ==> converts_entry(
                    #[trigger] self@.latest->Some_0[i],
                    r->Some_0@[i],
                ),
    {
        match &self.latest {
            None => None,
            Some(v) => {
                let mut out: Vec<(String, Option<Result<HostValue, CallError>>)> = Vec::new();
                let mut i: usize = 0;
                while i < v.len()
                    invariant
                        i <= v.len(),
                        out@.len() == i,
                        forall|j: int| 0 <= j < i ==> converts_entry(#[trigger] v@[j], out@[j]),
                    decreases v.len() - i,
                {
                    let converted = match &v[i].outcome {
                        None => None,
                        Some(o) => Some(outcome_result(o)),
                    };
                    out.push((v[i].subscriber.clone(), converted));
                    i += 1;
                }
                Some(out)
            },
        }
    }

    pub fn updates(&self) -> (r: u64)
        ensures
            r == self@.updates,
    {
        self.updates
    }

    pub fn release(&mut self)
        ensures
            final(self)@ == (QuerySetView { active: false, ..old(self)@ }),
    {
        self.active = false;
    }
}

} // verus!
