//! The faults that a metric can meet while a value is recorded. They are counted in
//! metrics of their own and never raised to the application.

use vstd::prelude::*;
use crate::common_metric_data::{identifier_of, CommonMetricData, Lifetime};
use crate::database::{key_of, stored_value, transformed};
use crate::inner::{transformed_in_pings, CoordinatorState, Inner};
use crate::metrics::{encode_value, optional_value, Metric, MetricValue};

verus! {

/// The kind of a fault met while recording.
#[derive(Clone, Copy, Debug, PartialEq, Eq, Structural)]
pub enum ErrorType {
    /// The value is not one that the metric can hold.
    InvalidValue,
    /// The label is not one that the metric can have.
    InvalidLabel,
    /// The metric is in a state in which the operation is not possible.
    InvalidState,
    /// The value is larger than the metric can hold.
    InvalidOverflow,
}

impl ErrorType {
    /// The name under which faults of this kind are counted.
    pub open spec fn spec_name(self) -> Seq<char> {
        match self {
            ErrorType::InvalidValue => "invalid_value"@,
            ErrorType::InvalidLabel => "invalid_label"@,
            ErrorType::InvalidState => "invalid_state"@,
            ErrorType::InvalidOverflow => "invalid_overflow"@,
        }
    }

    /// The name under which faults of this kind are counted.
    pub fn as_str(self) -> (name: &'static str)
        ensures
            name@ == self.spec_name(),
    {
        match self {
            ErrorType::InvalidValue => "invalid_value",
            ErrorType::InvalidLabel => "invalid_label",
            ErrorType::InvalidState => "invalid_state",
            ErrorType::InvalidOverflow => "invalid_overflow",
        }
    }
}

/// The count after one more fault: one more than the count so far, which is 0 where
/// no counter is stored; a count that has reached the largest value stays there.
pub open spec fn counted(current: Option<MetricValue>) -> MetricValue {
    match current {
        Some(MetricValue::Counter(n)) => MetricValue::Counter(
            if n < i32::MAX {
                (n + 1) as i32
            } else {
                n
            },
        ),
        _ => MetricValue::Counter(1),
    }
}

/// The count after one more fault.
pub fn count_one_more(current: Option<Metric>) -> (m: Metric)
    ensures
        m@ == counted(optional_value(current)),
{
    match current {
        Some(Metric::Counter(n)) => Metric::Counter(
            if n < i32::MAX {
                n + 1
            } else {
                n
            },
        ),
        _ => Metric::Counter(1),
    }
}

/// Metadata of the counter of the faults of kind `error` that the metric of `meta`
/// has met: same category, lifetime and pings, counted under the kind's name.
pub fn error_counter(meta: &CommonMetricData, error: ErrorType) -> (counter: CommonMetricData)
    ensures
        counter.name@ == error.spec_name(),
        counter.category@ == meta.spec_identifier(),
        counter.ping_names() == meta.ping_names(),
        counter.lifetime == meta.lifetime,
{
    let mut pings: Vec<String> = Vec::new();
    let mut i: usize = 0;
    while i < meta.send_in_pings.len()
        invariant
            i <= meta.send_in_pings.len(),
            pings.len() == i,
            forall|j: int| 0 <= j < i ==> #[trigger] pings[j]@ == meta.send_in_pings[j]@,
        decreases meta.send_in_pings.len() - i,
    {
        pings.push(meta.send_in_pings[i].clone());
        i = i + 1;
    }
    let id = meta.identifier();
    let counter = CommonMetricData::new(id.as_str(), error.as_str(), pings, meta.lifetime);
    assert(counter.ping_names() =~= meta.ping_names());
    counter
}

/// A store after one more fault is counted under the storage key of `id` for each
/// of `pings`, in their order.
pub open spec fn counted_in_pings(
    store: Map<Seq<u8>, Seq<u8>>,
    lifetime: Lifetime,
    pings: Seq<Seq<char>>,
    id: Seq<char>,
) -> Map<Seq<u8>, Seq<u8>>
    decreases pings.len(),
{
    if pings.len() == 0 {
        store
    } else {
        let before = counted_in_pings(store, lifetime, pings.drop_last(), id);
        let k = key_of(lifetime, pings.last(), id);
        before.insert(k, encode_value(counted(stored_value(before, k))))
    }
}

/// The coordinator state after one more fault of kind `error` is counted for the
/// metric with identifier `id` that is sent in `pings`: the count is dropped before
/// initialization and while upload is disabled.
pub open spec fn after_error(
    state: CoordinatorState,
    lifetime: Lifetime,
    pings: Seq<Seq<char>>,
    id: Seq<char>,
    error: ErrorType,
) -> CoordinatorState {
    if state.recording() {
        state.with_store(
            lifetime,
            counted_in_pings(
                state.store(lifetime),
                lifetime,
                pings,
                identifier_of(id, error.spec_name()),
            ),
        )
    } else {
        state
    }
}

/// Read-modify-writes that count, one per ping, lead to the store with one more
/// fault counted for each ping.
proof fn lemma_counted_chain<F: Fn(Option<Metric>) -> Metric>(
    steps: Seq<Map<Seq<u8>, Seq<u8>>>,
    lifetime: Lifetime,
    pings: Seq<Seq<char>>,
    id: Seq<char>,
    transform: F,
    n: int,
)
    requires
        steps.len() == pings.len() + 1,
        0 <= n <= pings.len(),
        forall|i: int|
            0 <= i < pings.len() ==> transformed(
                #[trigger] steps[i],
                steps[i + 1],
                key_of(lifetime, pings[i], id),
                transform,
            ),
        forall|current: Option<Metric>, new: Metric| #[trigger]
            call_ensures(transform, (current,), new) ==> new@ == counted(optional_value(current)),
    ensures
        steps[n] == counted_in_pings(steps[0], lifetime, pings.take(n), id),
    decreases n,
{
    if n > 0 {
        lemma_counted_chain(steps, lifetime, pings, id, transform, n - 1);
        assert(pings.take(n).drop_last() =~= pings.take(n - 1));
        assert(pings.take(n).last() == pings[n - 1]);
        assert(transformed(steps[n - 1], steps[n], key_of(lifetime, pings[n - 1], id), transform));
    } else {
        assert(pings.take(0).len() == 0);
    }
}

/// Counts one more fault of kind `error` for the metric that `meta` identifies: in
/// the counter of that kind for that metric, once for each ping that the metric is
/// sent with. The count is dropped before initialization and while upload is
/// disabled.
pub fn record_error(inner: &mut Inner, meta: &CommonMetricData, error: ErrorType)
    requires
        old(inner).wf(),
    ensures
        final(inner).wf(),
        final(inner)@ == after_error(
            old(inner)@,
            meta.lifetime,
            meta.ping_names(),
            meta.spec_identifier(),
            error,
        ),
{
    let counter = error_counter(meta, error);
    let transform = |current: Option<Metric>| -> (m: Metric)
        ensures
            m@ == counted(optional_value(current)),
        { count_one_more(current) };
    inner.record_metric_with(&counter, &transform);
    proof {
        if old(inner)@.recording() {
            let before = old(inner)@.store(meta.lifetime);
            let after = inner@.store(meta.lifetime);
            let pings = meta.ping_names();
            let id = counter.spec_identifier();
            assert(transformed_in_pings(before, after, meta.lifetime, pings, id, transform));
            let steps = choose|steps: Seq<Map<Seq<u8>, Seq<u8>>>|
                {
                    &&& steps.len() == pings.len() + 1
                    &&& steps[0] == before
                    &&& steps[pings.len() as int] == after
                    &&& forall|i: int|
                        0 <= i < pings.len() ==> transformed(
                            #[trigger] steps[i],
                            steps[i + 1],
                            key_of(meta.lifetime, pings[i], id),
                            transform,
                        )
                };
            lemma_counted_chain(steps, meta.lifetime, pings, id, transform, pings.len() as int);
            assert(pings.take(pings.len() as int) =~= pings);
        }
    }
}

} // verus!