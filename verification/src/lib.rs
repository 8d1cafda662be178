//! Coordination core of a telemetry recording library: the coordinator, its state,
//! and the lifetime-scoped stores that it records into.

use vstd::prelude::*;
use vstd::utf8::encode_utf8;

pub mod common_metric_data;
pub mod database;
pub mod error_recording;
pub mod inner;
pub mod internal_metrics;
pub mod keys;
pub mod metrics;
pub mod store;

pub use crate::common_metric_data::{CommonMetricData, Lifetime};
pub use crate::database::{MetricEntry, StoreImage};
pub use crate::error_recording::ErrorType;
pub use crate::inner::{InitError, Inner};
pub use crate::metrics::Metric;
pub use crate::store::{Entry, Writer};

use crate::database::{key_of, lists_from, may_visit, stored_value, transacted, transaction_fn_ok,
    transformed, visited_from};
use crate::error_recording::after_error;
use crate::inner::{initialize_result, transformed_in_pings, CoordinatorState};
use crate::internal_metrics::after_bootstrap;
use crate::metrics::optional_value;
use crate::store::{image_map, pairs_of, strictly_sorted};

verus! {

/// The coordinator: the one entry point to the coordinator state. An operation that
/// changes the state takes the coordinator exclusively, from its read to its write;
/// an operation that only reads shares it. Where threads share one coordinator, they
/// share it behind one reader-writer lock over it, which gives them these two kinds
/// of access.
pub struct Glean {
    inner: Inner,
}

impl View for Glean {
    type V = CoordinatorState;

    /// The coordinator state as a mathematical value.
    closed spec fn view(&self) -> CoordinatorState {
        self.inner@
    }
}

impl Glean {
    /// The coordinator state is well formed: it is initialized exactly when its
    /// store adapter is open.
    pub closed spec fn wf(&self) -> bool {
        self.inner.wf()
    }

    /// A well-formed coordinator holds nothing until it is initialized.
    pub proof fn lemma_wf_state(&self)
        requires
            self.wf(),
        ensures
            self@.wf(),
    {
        self.inner.lemma_wf_state();
    }

    /// A coordinator that is not initialized: upload enabled, nothing stored.
    pub fn new() -> (glean: Self)
        ensures
            glean.wf(),
            glean@ == CoordinatorState::fresh(),
    {
        Glean { inner: Inner::new() }
    }

    /// Initializes the coordinator on what the storage engine held under `data_path`
    /// (`None` where it could not open its store), then runs the bootstrap sequence:
    /// records the first-run status and makes sure that a client identifier is
    /// stored, `candidate_client_id` where none is. A second initialization is
    /// rejected. A call that is rejected leaves the state as it was and records
    /// nothing.
    ///
    /// The two steps are `initialize_state` and `initialize_core_metrics`. Where
    /// threads share the coordinator behind a lock, they are called one after the
    /// other, with the lock released between them.
    pub fn initialize(
        &mut self,
        data_path: &str,
        opened: Option<StoreImage>,
        first_run: bool,
        candidate_client_id: &str,
    ) -> (result: Result<(), InitError>)
        requires
            old(self).wf(),
        ensures
            final(self).wf(),
            result == initialize_result(old(self)@.initialized, data_path@, opened is Some),
            final(self)@ == if result is Ok {
                after_bootstrap(
                    old(self)@.initialize(data_path@, opened),
                    first_run,
                    candidate_client_id@,
                )
            } else {
                old(self)@
            },
    {
        let result = self.initialize_state(data_path, opened);
        if result.is_ok() {
            self.initialize_core_metrics(first_run, candidate_client_id);
        }
        result
    }

    /// The first step of an initialization: makes the coordinator initialized on
    /// what the storage engine held under `data_path` (`None` where it could not
    /// open its store), and records nothing. A coordinator that is initialized
    /// already rejects the call, and so does an empty data path. A call that is
    /// rejected leaves the state as it was.
    pub fn initialize_state(&mut self, data_path: &str, opened: Option<StoreImage>) -> (result:
        Result<(), InitError>)
        requires
            old(self).wf(),
        ensures
            final(self).wf(),
            result == initialize_result(old(self)@.initialized, data_path@, opened is Some),
            final(self)@ == old(self)@.initialize(data_path@, opened),
    {
        self.write().initialize(data_path, opened)
    }

    /// The second step of an initialization, the bootstrap sequence, made of the
    /// recordings that any client makes: records the first-run status, then stores
    /// `candidate_client_id` as the client identifier unless one is stored already.
    /// Both are dropped before initialization and while upload is disabled.
    pub fn initialize_core_metrics(&mut self, first_run: bool, candidate_client_id: &str)
        requires
            old(self).wf(),
        ensures
            final(self).wf(),
            final(self)@ == after_bootstrap(old(self)@, first_run, candidate_client_id@),
    {
        internal_metrics::initialize_core_metrics(self.write(), first_run, candidate_client_id);
    }

    /// Shared access to the coordinator state.
    fn read(&self) -> (inner: &Inner)
        ensures
            inner@ == self@,
            inner.wf() == self.wf(),
    {
        &self.inner
    }

    /// Exclusive access to the coordinator state: the state that the caller leaves
    /// behind the reference is the coordinator's state from then on.
    fn write(&mut self) -> (inner: &mut Inner)
        ensures
            inner@ == old(self)@,
            inner.wf() == old(self).wf(),
            final(self)@ == final(inner)@,
            final(self).wf() == final(inner).wf(),
    {
        &mut self.inner
    }

    /// Whether the coordinator is initialized.
    pub fn is_initialized(&self) -> (b: bool)
        ensures
            b == self@.initialized,
    {
        self.read().is_initialized()
    }

    /// Sets whether upload is enabled. Nothing that is stored changes.
    pub fn set_upload_enabled(&mut self, flag: bool)
        ensures
            final(self)@ == old(self)@.set_upload_enabled(flag),
            old(self).wf() ==> final(self).wf(),
    {
        self.write().set_upload_enabled(flag)
    }

    /// Whether upload is enabled.
    pub fn is_upload_enabled(&self) -> (b: bool)
        ensures
            b == self@.upload_enabled,
    {
        self.read().is_upload_enabled()
    }

    /// The stored entries of `lifetime` whose key is not less than `iter_start` and
    /// whose bytes decode to a value, in key order.
    pub fn entries_from(&self, lifetime: Lifetime, iter_start: &str) -> (out: Vec<MetricEntry>)
        requires
            self.wf(),
        ensures
            lists_from(out@, self@.store(lifetime), encode_utf8(iter_start@)),
    {
        self.read().entries_from(lifetime, iter_start)
    }

    /// Calls `transaction_fn` on each entry that `entries_from` lists, in that order:
    /// on every stored entry of `lifetime` whose key is not less than `iter_start` and
    /// whose bytes decode to a value. The function is called on nothing else: it need
    /// only accept a stored key that is not less than `iter_start`, with the value
    /// that the key's bytes decode to.
    pub fn iter_store_from<F>(&self, lifetime: Lifetime, iter_start: &str, transaction_fn: F) where
        F: FnMut(&[u8], &Metric),

        requires
            self.wf(),
            forall|k: &[u8], m: &Metric|
                may_visit(self@.store(lifetime), encode_utf8(iter_start@), k@, m@)
                    ==> #[trigger] call_requires(transaction_fn, (k, m)),
        ensures
            visited_from(transaction_fn, self@.store(lifetime), encode_utf8(iter_start@)),
    {
        self.read().iter_store_from(lifetime, iter_start, transaction_fn)
    }

    /// Runs `transaction_fn` on a write transaction over the store of `store_name`
    /// and commits what it returns; where it returns `None`, nothing changes. Before
    /// initialization nothing happens and `transaction_fn` is not called.
    pub fn write_with_store<F>(&mut self, store_name: Lifetime, transaction_fn: F) where
        F: FnOnce(Writer) -> Option<Writer>,

        requires
            old(self).wf(),
            old(self)@.initialized ==> transaction_fn_ok(
                transaction_fn,
                old(self)@.store(store_name),
            ),
        ensures
            final(self).wf(),
            final(self)@ == old(self)@.with_store(store_name, final(self)@.store(store_name)),
            !old(self)@.initialized ==> final(self)@ == old(self)@,
            old(self)@.initialized ==> transacted(
                old(self)@.store(store_name),
                final(self)@.store(store_name),
                transaction_fn,
            ),
    {
        self.write().write_with_store(store_name, transaction_fn)
    }

    /// Stores `metric` under the storage key of `(lifetime, ping_name, key)`,
    /// replacing what was stored there. Before initialization the write is dropped.
    pub fn record(&mut self, lifetime: Lifetime, ping_name: &str, key: &str, metric: &Metric)
        requires
            old(self).wf(),
        ensures
            final(self).wf(),
            final(self)@ == old(self)@.record(lifetime, ping_name@, key@, metric@),
    {
        self.write().record(lifetime, ping_name, key, metric)
    }

    /// One atomic read-modify-write: hands the value stored under the storage key of
    /// `(lifetime, ping_name, key)` to `transform` and stores what it returns under
    /// the same key. Before initialization nothing happens and `transform` is not
    /// called. The transform is called once, on the stored value: it need accept no
    /// other.
    pub fn record_with<F>(&mut self, lifetime: Lifetime, ping_name: &str, key: &str, transform: F) where
        F: Fn(Option<Metric>) -> Metric,

        requires
            old(self).wf(),
            old(self)@.initialized ==> forall|m: Option<Metric>|
                optional_value(m) == stored_value(
                    old(self)@.store(lifetime),
                    key_of(lifetime, ping_name@, key@),
                ) ==> #[trigger] call_requires(transform, (m,)),
        ensures
            final(self).wf(),
            final(self)@ == old(self)@.with_store(lifetime, final(self)@.store(lifetime)),
            !old(self)@.initialized ==> final(self)@ == old(self)@,
            old(self)@.initialized ==> transformed(
                old(self)@.store(lifetime),
                final(self)@.store(lifetime),
                key_of(lifetime, ping_name@, key@),
                transform,
            ),
    {
        self.write().record_with(lifetime, ping_name, key, &transform)
    }

    /// Records `metric` for the metric that `meta` identifies: under the metric's
    /// identifier, once for each ping that it is sent with. The value is dropped
    /// before initialization and while upload is disabled.
    pub fn record_metric(&mut self, meta: &CommonMetricData, metric: &Metric)
        requires
            old(self).wf(),
        ensures
            final(self).wf(),
            final(self)@ == old(self)@.record_metric(
                meta.lifetime,
                meta.ping_names(),
                meta.spec_identifier(),
                metric@,
            ),
    {
        self.write().record_metric(meta, metric)
    }

    /// One read-modify-write with `transform` for the metric that `meta` identifies:
    /// on the metric's identifier, once for each ping that it is sent with, in their
    /// order. Nothing happens before initialization and while upload is disabled.
    pub fn record_metric_with<F>(&mut self, meta: &CommonMetricData, transform: F) where
        F: Fn(Option<Metric>) -> Metric,

        requires
            old(self).wf(),
            forall|m: Option<Metric>| call_requires(transform, (m,)),
        ensures
            final(self).wf(),
            final(self)@ == old(self)@.with_store(meta.lifetime, final(self)@.store(meta.lifetime)),
            !old(self)@.recording() ==> final(self)@ == old(self)@,
            old(self)@.recording() ==> transformed_in_pings(
                old(self)@.store(meta.lifetime),
                final(self)@.store(meta.lifetime),
                meta.lifetime,
                meta.ping_names(),
                meta.spec_identifier(),
                transform,
            ),
    {
        self.write().record_metric_with(meta, &transform)
    }

    /// Counts one more fault of kind `error` for the metric that `meta` identifies: in
    /// the counter of that kind for that metric, once for each ping that the metric is
    /// sent with. The count is dropped before initialization and while upload is
    /// disabled.
    pub fn record_error(&mut self, meta: &CommonMetricData, error: ErrorType)
        requires
            old(self).wf(),
        ensures
            final(self).wf(),
            final(self)@ == after_error(
                old(self)@,
                meta.lifetime,
                meta.ping_names(),
                meta.spec_identifier(),
                error,
            ),
    {
        error_recording::record_error(self.write(), meta, error)
    }

    /// Copies of the raw pairs that the store of `lifetime` holds, in key order: what
    /// a storage engine has to keep so that the coordinator can be initialized on it
    /// again.
    pub fn snapshot(&self, lifetime: Lifetime) -> (out: Vec<Entry>)
        requires
            self.wf(),
        ensures
            strictly_sorted(pairs_of(out@)),
            image_map(pairs_of(out@)) == self@.store(lifetime),
    {
        self.read().snapshot(lifetime)
    }
}

} // verus!
