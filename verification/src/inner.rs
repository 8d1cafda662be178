//! The coordinator state: whether the library is initialized, whether upload is
//! enabled, and the store adapter that it owns.

use vstd::prelude::*;
use vstd::utf8::encode_utf8;
use crate::common_metric_data::{CommonMetricData, Lifetime};
use crate::database::{key_of, lemma_visits_every_entry, lists_from, lists_key, may_visit,
    stored_value, transacted, transaction_fn_ok, transformed, visited_from, Database, MetricEntry,
    StoreImage};
use crate::keys::lex_lt;
use crate::metrics::{encode_value, lemma_decode_encode, optional_value, Metric, MetricValue};
use crate::store::{image_map, pairs_of, strictly_sorted, Entry, Writer};

verus! {

/// Why an initialization did not take place.
#[derive(Clone, Copy, Debug, PartialEq, Eq, Structural)]
pub enum InitError {
    /// The coordinator is initialized already; it stays as it is.
    AlreadyInitialized,
    /// The data path is empty.
    EmptyDataPath,
    /// The storage engine could not open its store under the data path.
    StoreUnavailable,
}

/// What an initialization returns, from whether the coordinator was initialized, the
/// data path, and whether the storage engine handed over what it held.
pub open spec fn initialize_result(initialized: bool, data_path: Seq<char>, image_given: bool) -> Result<
    (),
    InitError,
> {
    if initialized {
        Err(InitError::AlreadyInitialized)
    } else if data_path.len() == 0 {
        Err(InitError::EmptyDataPath)
    } else if !image_given {
        Err(InitError::StoreUnavailable)
    } else {
        Ok(())
    }
}

/// The storage keys under which a metric with key `id` is recorded for the first `n`
/// of `pings`.
pub open spec fn ping_keys(lifetime: Lifetime, pings: Seq<Seq<char>>, id: Seq<char>, n: int) -> Set<
    Seq<u8>,
> {
    Set::new(|k: Seq<u8>| exists|j: int| 0 <= j < n && k == key_of(lifetime, #[trigger] pings[j], id))
}

/// `before` with `value` stored under each of `keys`.
pub open spec fn recorded_under(
    before: Map<Seq<u8>, Seq<u8>>,
    keys: Set<Seq<u8>>,
    value: Seq<u8>,
) -> Map<Seq<u8>, Seq<u8>> {
    Map::new(
        |k: Seq<u8>| before.contains_key(k) || keys.contains(k),
        |k: Seq<u8>|
            if keys.contains(k) {
                value
            } else {
                before[k]
            },
    )
}

/// One read-modify-write per ping, in the order of `pings`, leads from `before` to
/// `after`: each on the storage key of `id` for that ping, each on what the one
/// before it left.
pub open spec fn transformed_in_pings<F: Fn(Option<Metric>) -> Metric>(
    before: Map<Seq<u8>, Seq<u8>>,
    after: Map<Seq<u8>, Seq<u8>>,
    lifetime: Lifetime,
    pings: Seq<Seq<char>>,
    id: Seq<char>,
    transform: F,
) -> bool {
    exists|steps: Seq<Map<Seq<u8>, Seq<u8>>>|
        {
            &&& steps.len() == pings.len() + 1
            &&& steps[0] == before
            &&& steps[pings.len() as int] == after
            &&& forall|i: int|
                0 <= i < pings.len() ==> transformed(
                    #[trigger] steps[i],
                    steps[i + 1],
                    key_of(lifetime, pings[i], id),
                    transform,
                )
        }
}

/// The coordinator state as a mathematical value.
pub struct CoordinatorState {
    pub initialized: bool,
    pub upload_enabled: bool,
    pub ping: Map<Seq<u8>, Seq<u8>>,
    pub application: Map<Seq<u8>, Seq<u8>>,
    pub user: Map<Seq<u8>, Seq<u8>>,
}

impl CoordinatorState {
    /// What the store of `lifetime` holds: raw value by storage key.
    pub open spec fn store(self, lifetime: Lifetime) -> Map<Seq<u8>, Seq<u8>> {
        match lifetime {
            Lifetime::Ping => self.ping,
            Lifetime::Application => self.application,
            Lifetime::User => self.user,
        }
    }

    /// The state with the store of `lifetime` holding `contents`, and all else as it is.
    pub open spec fn with_store(self, lifetime: Lifetime, contents: Map<Seq<u8>, Seq<u8>>) -> Self {
        match lifetime {
            Lifetime::Ping => CoordinatorState { ping: contents, ..self },
            Lifetime::Application => CoordinatorState { application: contents, ..self },
            Lifetime::User => CoordinatorState { user: contents, ..self },
        }
    }

    /// A state that is not initialized holds nothing.
    pub open spec fn wf(self) -> bool {
        !self.initialized ==> forall|l: Lifetime| self.store(l) == Map::<Seq<u8>, Seq<u8>>::empty()
    }

    /// The state before initialization: not initialized, upload enabled, nothing stored.
    pub open spec fn fresh() -> Self {
        CoordinatorState {
            initialized: false,
            upload_enabled: true,
            ping: Map::empty(),
            application: Map::empty(),
            user: Map::empty(),
        }
    }

    /// Whether a metric's value is recorded: only once initialized, and only while
    /// upload is enabled.
    pub open spec fn recording(self) -> bool {
        self.initialized && self.upload_enabled
    }

    /// The state after a call to initialize: where the call is accepted, initialized
    /// and holding what the image holds; where it is rejected, as before.
    pub open spec fn initialize(self, data_path: Seq<char>, opened: Option<StoreImage>) -> Self {
        match opened {
            Some(image) if initialize_result(self.initialized, data_path, true) is Ok => CoordinatorState {
                initialized: true,
                upload_enabled: self.upload_enabled,
                ping: image_map(image.pairs(Lifetime::Ping)),
                application: image_map(image.pairs(Lifetime::Application)),
                user: image_map(image.pairs(Lifetime::User)),
            },
            _ => self,
        }
    }

    /// The state after the upload flag is set.
    pub open spec fn set_upload_enabled(self, flag: bool) -> Self {
        CoordinatorState { upload_enabled: flag, ..self }
    }

    /// The state after `value` is recorded under the storage key of
    /// `(lifetime, ping_name, key)`: before initialization the write is dropped.
    pub open spec fn record(
        self,
        lifetime: Lifetime,
        ping_name: Seq<char>,
        key: Seq<char>,
        value: MetricValue,
    ) -> Self {
        if self.initialized {
            self.with_store(
                lifetime,
                self.store(lifetime).insert(key_of(lifetime, ping_name, key), encode_value(value)),
            )
        } else {
            self
        }
    }

    /// The state after `value` is recorded for a metric with identifier `id` that is
    /// sent in `pings`: dropped before initialization and while upload is disabled.
    pub open spec fn record_metric(
        self,
        lifetime: Lifetime,
        pings: Seq<Seq<char>>,
        id: Seq<char>,
        value: MetricValue,
    ) -> Self {
        if self.recording() {
            self.with_store(
                lifetime,
                recorded_under(
                    self.store(lifetime),
                    ping_keys(lifetime, pings, id, pings.len() as int),
                    encode_value(value),
                ),
            )
        } else {
            self
        }
    }
}

/// A value recorded before initialization is dropped: the state stays as it was, and
/// it holds nothing.
pub proof fn lemma_record_before_initialize(
    state: CoordinatorState,
    lifetime: Lifetime,
    ping_name: Seq<char>,
    key: Seq<char>,
    value: MetricValue,
)
    requires
        state.wf(),
        !state.initialized,
    ensures
        state.record(lifetime, ping_name, key, value) == state,
        forall|l: Lifetime|
            state.record(lifetime, ping_name, key, value).store(l) == Map::<
                Seq<u8>,
                Seq<u8>,
            >::empty(),
{
}

/// An initialization that is accepted leaves the coordinator initialized, and one
/// that is rejected leaves the state as it was.
pub proof fn lemma_initialize(state: CoordinatorState, data_path: Seq<char>, opened: Option<StoreImage>)
    ensures
        initialize_result(state.initialized, data_path, opened is Some) is Ok ==> state.initialize(
            data_path,
            opened,
        ).initialized,
        initialize_result(state.initialized, data_path, opened is Some) is Err ==> state.initialize(
            data_path,
            opened,
        ) == state,
        state.wf() ==> state.initialize(data_path, opened).wf(),
{
}

/// Once initialized, a recorded value is stored, and a read of its lifetime from a
/// start that is not beyond its storage key lists it, decoded to the value recorded.
pub proof fn lemma_recorded_is_listed(
    state: CoordinatorState,
    lifetime: Lifetime,
    ping_name: Seq<char>,
    key: Seq<char>,
    value: MetricValue,
    start: Seq<u8>,
    out: Seq<MetricEntry>,
)
    requires
        state.initialized,
        !lex_lt(key_of(lifetime, ping_name, key), start),
        lists_from(out, state.record(lifetime, ping_name, key, value).store(lifetime), start),
    ensures
        stored_value(
            state.record(lifetime, ping_name, key, value).store(lifetime),
            key_of(lifetime, ping_name, key),
        ) == Some(value),
        exists|i: int|
            0 <= i < out.len() && #[trigger] out[i]@ == (key_of(lifetime, ping_name, key), value),
{
    let k = key_of(lifetime, ping_name, key);
    let store = state.record(lifetime, ping_name, key, value).store(lifetime);
    lemma_decode_encode(value);
    assert(store.contains_key(k));
    assert(lists_key(out, k));
    let i = choose|i: int| 0 <= i < out.len() && #[trigger] out[i].key@ == k;
    assert(out[i]@ == (k, value));
}

/// Once initialized, a recorded value is handed to the visitor of a visit of its
/// lifetime from a start that is not beyond its storage key, with that key and the
/// value recorded.
pub proof fn lemma_recorded_is_visited<F: FnMut(&[u8], &Metric)>(
    state: CoordinatorState,
    lifetime: Lifetime,
    ping_name: Seq<char>,
    key: Seq<char>,
    value: MetricValue,
    start: Seq<u8>,
    f: F,
)
    requires
        state.initialized,
        !lex_lt(key_of(lifetime, ping_name, key), start),
        visited_from(f, state.record(lifetime, ping_name, key, value).store(lifetime), start),
    ensures
        exists|k: &[u8], m: &Metric|
            k@ == key_of(lifetime, ping_name, key) && m@ == value && #[trigger] call_ensures(
                f,
                (k, m),
                (),
            ),
{
    let store = state.record(lifetime, ping_name, key, value).store(lifetime);
    lemma_decode_encode(value);
    lemma_visits_every_entry(f, store, start, key_of(lifetime, ping_name, key));
}

/// Setting the upload flag changes the flag and nothing else: after any two settings
/// the flag is the one set last, and every store holds what it held.
pub proof fn lemma_upload_flag_independent(state: CoordinatorState, first: bool, last: bool)
    ensures
        state.set_upload_enabled(first).set_upload_enabled(last).upload_enabled == last,
        state.set_upload_enabled(first).set_upload_enabled(last).initialized == state.initialized,
        forall|l: Lifetime|
            state.set_upload_enabled(first).set_upload_enabled(last).store(l) == state.store(l),
{
}

/// Lifetimes do not share a namespace. Writing to the store of one lifetime leaves
/// the stores of the others as they were, so a read of another lifetime lists what
/// it listed before; and the same ping name and key recorded under two lifetimes are
/// two entries, each with its own value.
pub proof fn lemma_lifetimes_isolated(
    state: CoordinatorState,
    lifetime: Lifetime,
    other: Lifetime,
    ping_name: Seq<char>,
    key: Seq<char>,
    value: MetricValue,
    other_value: MetricValue,
    contents: Map<Seq<u8>, Seq<u8>>,
)
    requires
        lifetime != other,
    ensures
        state.with_store(lifetime, contents).store(other) == state.store(other),
        state.with_store(lifetime, contents).store(lifetime) == contents,
        state.record(lifetime, ping_name, key, value).store(other) == state.store(other),
        forall|out: Seq<MetricEntry>, start: Seq<u8>|
            lists_from(out, state.store(other), start) <==> #[trigger] lists_from(
                out,
                state.record(lifetime, ping_name, key, value).store(other),
                start,
            ),
        state.initialized ==> stored_value(
            state.record(lifetime, ping_name, key, value).record(
                other,
                ping_name,
                key,
                other_value,
            ).store(lifetime),
            key_of(lifetime, ping_name, key),
        ) == Some(value),
        state.initialized ==> stored_value(
            state.record(lifetime, ping_name, key, value).record(
                other,
                ping_name,
                key,
                other_value,
            ).store(other),
            key_of(other, ping_name, key),
        ) == Some(other_value),
{
    lemma_decode_encode(value);
    lemma_decode_encode(other_value);
}

/// What the coordinator holds survives a restart: a fresh coordinator initialized on
/// an image that gives, for each lifetime, the pairs of a store holds what that store
/// held.
pub proof fn lemma_reopened_holds_the_same(
    state: CoordinatorState,
    data_path: Seq<char>,
    image: StoreImage,
)
    requires
        data_path.len() > 0,
        forall|l: Lifetime| image_map(image.pairs(l)) == state.store(l),
    ensures
        CoordinatorState::fresh().initialize(data_path, Some(image)).initialized,
        forall|l: Lifetime|
            CoordinatorState::fresh().initialize(data_path, Some(image)).store(l) == state.store(l),
{
}

/// The coordinator state.
#[derive(Debug)]
pub struct Inner {
    initialized: bool,
    upload_enabled: bool,
    data_store: Database,
}

impl View for Inner {
    type V = CoordinatorState;

    /// The state as a mathematical value.
    closed spec fn view(&self) -> CoordinatorState {
        CoordinatorState {
            initialized: self.initialized,
            upload_enabled: self.upload_enabled,
            ping: self.data_store.store(Lifetime::Ping),
            application: self.data_store.store(Lifetime::Application),
            user: self.data_store.store(Lifetime::User),
        }
    }
}

impl Inner {
    /// The store adapter is well formed, and it is open exactly when the coordinator
    /// is initialized.
    pub closed spec fn wf(&self) -> bool {
        &&& self.data_store.wf()
        &&& self.initialized == self.data_store.opened()
    }

    /// A well-formed coordinator has a well-formed state: until it is initialized it
    /// holds nothing.
    pub proof fn lemma_wf_state(&self)
        requires
            self.wf(),
        ensures
            self@.wf(),
    {
        if !self.initialized {
            self.data_store.lemma_inert_holds_nothing(Lifetime::Ping);
            self.data_store.lemma_inert_holds_nothing(Lifetime::Application);
            self.data_store.lemma_inert_holds_nothing(Lifetime::User);
        }
    }

    /// The state before initialization: not initialized, upload enabled, nothing stored.
    pub fn new() -> (inner: Inner)
        ensures
            inner.wf(),
            inner@ == CoordinatorState::fresh(),
    {
        Inner { initialized: false, upload_enabled: true, data_store: Database::new() }
    }

    /// Initializes the coordinator on what the storage engine held under `data_path`;
    /// `opened` is `None` where the engine could not open its store. This happens
    /// once: a coordinator that is initialized already rejects the call. A call that
    /// is rejected leaves the coordinator as it was.
    pub fn initialize(&mut self, data_path: &str, opened: Option<StoreImage>) -> (result: Result<
        (),
        InitError,
    >)
        requires
            old(self).wf(),
        ensures
            final(self).wf(),
            result == initialize_result(old(self)@.initialized, data_path@, opened is Some),
            final(self)@ == old(self)@.initialize(data_path@, opened),
    {
        if self.initialized {
            return Err(InitError::AlreadyInitialized);
        }
        if data_path.is_empty() {
            return Err(InitError::EmptyDataPath);
        }
        match opened {
            None => Err(InitError::StoreUnavailable),
            Some(image) => {
                self.data_store.initialize(&image);
                self.initialized = true;
                Ok(())
            },
        }
    }

    /// Whether the coordinator is initialized.
    pub fn is_initialized(&self) -> (b: bool)
        ensures
            b == self@.initialized,
    {
        self.initialized
    }

    /// Sets whether upload is enabled. Nothing that is stored changes.
    pub fn set_upload_enabled(&mut self, flag: bool)
        ensures
            final(self)@ == old(self)@.set_upload_enabled(flag),
            old(self).wf() ==> final(self).wf(),
    {
        self.upload_enabled = flag;
    }

    /// Whether upload is enabled.
    pub fn is_upload_enabled(&self) -> (b: bool)
        ensures
            b == self@.upload_enabled,
    {
        self.upload_enabled
    }

    /// Stores `metric` under the storage key of `(lifetime, ping_name, key)`,
    /// replacing what was stored there. Before initialization the write is dropped.
    pub fn record(&mut self, lifetime: Lifetime, ping_name: &str, key: &str, metric: &Metric)
        requires
            old(self).wf(),
        ensures
            final(self).wf(),
            final(self)@ == old(self)@.record(lifetime, ping_name@, key@, metric@),
    {
        self.data_store.record(lifetime, ping_name, key, metric);
    }

    /// One atomic read-modify-write: hands the value stored under the storage key of
    /// `(lifetime, ping_name, key)` to `transform` and stores what it returns under
    /// the same key. Before initialization nothing happens and `transform` is not
    /// called. The transform is called once, on the stored value: it need accept no
    /// other.
    pub fn record_with<F>(&mut self, lifetime: Lifetime, ping_name: &str, key: &str, transform: &F) where
        F: Fn(Option<Metric>) -> Metric,

        requires
            old(self).wf(),
            old(self)@.initialized ==> forall|m: Option<Metric>|
                optional_value(m) == stored_value(
                    old(self)@.store(lifetime),
                    key_of(lifetime, ping_name@, key@),
                ) ==> #[trigger] call_requires(*transform, (m,)),
        ensures
            final(self).wf(),
            final(self)@ == old(self)@.with_store(lifetime, final(self)@.store(lifetime)),
            !old(self)@.initialized ==> final(self)@ == old(self)@,
            old(self)@.initialized ==> transformed(
                old(self)@.store(lifetime),
                final(self)@.store(lifetime),
                key_of(lifetime, ping_name@, key@),
                *transform,
            ),
    {
        self.data_store.record_with(lifetime, ping_name, key, transform);
    }

    /// The stored entries of `lifetime` whose key is not less than `iter_start` and
    /// whose bytes decode to a value, in key order.
    pub fn entries_from(&self, lifetime: Lifetime, iter_start: &str) -> (out: Vec<MetricEntry>)
        requires
            self.wf(),
        ensures
            lists_from(out@, self@.store(lifetime), encode_utf8(iter_start@)),
    {
        self.data_store.entries_from(lifetime, iter_start)
    }

    /// Calls `transaction_fn` on each entry that `entries_from` lists, in that order:
    /// on every stored entry of `lifetime` whose key is not less than `iter_start` and
    /// whose bytes decode to a value. The function is called on nothing else: it need
    /// only accept a stored key that is not less than `iter_start`, with the value
    /// that the key's bytes decode to.
    pub fn iter_store_from<F>(&self, lifetime: Lifetime, iter_start: &str, transaction_fn: F) where
        F: FnMut(&[u8], &Metric),

        requires
            self.wf(),
            forall|k: &[u8], m: &Metric|
                may_visit(self@.store(lifetime), encode_utf8(iter_start@), k@, m@) ==> #[trigger] call_requires(
                    transaction_fn,
                    (k, m),
                ),
        ensures
            visited_from(transaction_fn, self@.store(lifetime), encode_utf8(iter_start@)),
    {
        assert(self@.store(lifetime) == self.data_store.store(lifetime));
        self.data_store.iter_store_from(lifetime, iter_start, transaction_fn);
    }

    /// Runs `transaction_fn` on a write transaction over the store of `store_name`
    /// and commits what it returns; where it returns `None`, nothing changes. Before
    /// initialization nothing happens and `transaction_fn` is not called.
    pub fn write_with_store<F>(&mut self, store_name: Lifetime, transaction_fn: F) where
        F: FnOnce(Writer) -> Option<Writer>,

        requires
            old(self).wf(),
            old(self)@.initialized ==> transaction_fn_ok(
                transaction_fn,
                old(self)@.store(store_name),
            ),
        ensures
            final(self).wf(),
            final(self)@ == old(self)@.with_store(store_name, final(self)@.store(store_name)),
            !old(self)@.initialized ==> final(self)@ == old(self)@,
            old(self)@.initialized ==> transacted(
                old(self)@.store(store_name),
                final(self)@.store(store_name),
                transaction_fn,
            ),
    {
        self.data_store.write_with_store(store_name, transaction_fn);
    }

    /// Copies of the raw pairs that the store of `lifetime` holds, in key order: what
    /// a storage engine has to keep so that the coordinator can be initialized on it
    /// again.
    pub fn snapshot(&self, lifetime: Lifetime) -> (out: Vec<Entry>)
        requires
            self.wf(),
        ensures
            strictly_sorted(pairs_of(out@)),
            image_map(pairs_of(out@)) == self@.store(lifetime),
    {
        self.data_store.snapshot(lifetime)
    }

    /// Records `metric` for the metric that `meta` identifies: under the metric's
    /// identifier, once for each ping that it is sent with. The value is dropped
    /// before initialization and while upload is disabled.
    pub fn record_metric(&mut self, meta: &CommonMetricData, metric: &Metric)
        requires
            old(self).wf(),
        ensures
            final(self).wf(),
            final(self)@ == old(self)@.record_metric(
                meta.lifetime,
                meta.ping_names(),
                meta.spec_identifier(),
                metric@,
            ),
    {
        if !self.initialized || !self.upload_enabled {
            return ;
        }
        let id = meta.identifier();
        let ghost before = self@.store(meta.lifetime);
        let ghost pings = meta.ping_names();
        let ghost value = encode_value(metric@);
        let mut i: usize = 0;
        assert(self@.store(meta.lifetime) =~= recorded_under(
            before,
            ping_keys(meta.lifetime, pings, id@, 0),
            value,
        ));
        while i < meta.send_in_pings.len()
            invariant
                i <= meta.send_in_pings.len(),
                pings == meta.ping_names(),
                id@ == meta.spec_identifier(),
                value == encode_value(metric@),
                self.wf(),
                self@.initialized,
                before == old(self)@.store(meta.lifetime),
                self@ == old(self)@.with_store(meta.lifetime, self@.store(meta.lifetime)),
                self@.store(meta.lifetime) == recorded_under(
                    before,
                    ping_keys(meta.lifetime, pings, id@, i as int),
                    value,
                ),
            decreases meta.send_in_pings.len() - i,
        {
            let ping = meta.send_in_pings[i].as_str();
            self.data_store.record(meta.lifetime, ping, id.as_str(), metric);
            proof {
                let k = key_of(meta.lifetime, pings[i as int], id@);
                let earlier = ping_keys(meta.lifetime, pings, id@, i as int);
                let now = ping_keys(meta.lifetime, pings, id@, i as int + 1);
                assert(ping@ == pings[i as int]);
                assert forall|x: Seq<u8>| now.contains(x) <==> earlier.contains(x) || x == k by {
                    if earlier.contains(x) {
                        let j = choose|j: int|
                            0 <= j < i && x == key_of(meta.lifetime, #[trigger] pings[j], id@);
                        assert(0 <= j < i + 1 && x == key_of(meta.lifetime, pings[j], id@));
                    }
                    if x == k {
                        assert(0 <= i < i + 1 && x == key_of(meta.lifetime, pings[i as int], id@));
                    }
                }
                assert(recorded_under(before, earlier, value).insert(k, value) =~= recorded_under(
                    before,
                    now,
                    value,
                ));
            }
            i = i + 1;
        }
    }

    /// One read-modify-write with `transform` for the metric that `meta` identifies:
    /// on the metric's identifier, once for each ping that it is sent with, in their
    /// order. Nothing happens before initialization and while upload is disabled.
    pub fn record_metric_with<F>(&mut self, meta: &CommonMetricData, transform: &F) where
        F: Fn(Option<Metric>) -> Metric,

        requires
            old(self).wf(),
            forall|m: Option<Metric>| call_requires(*transform, (m,)),
        ensures
            final(self).wf(),
            final(self)@ == old(self)@.with_store(meta.lifetime, final(self)@.store(meta.lifetime)),
            !old(self)@.recording() ==> final(self)@ == old(self)@,
            old(self)@.recording() ==> transformed_in_pings(
                old(self)@.store(meta.lifetime),
                final(self)@.store(meta.lifetime),
                meta.lifetime,
                meta.ping_names(),
                meta.spec_identifier(),
                *transform,
            ),
    {
        if !self.initialized || !self.upload_enabled {
            assert(self@ =~= self@.with_store(meta.lifetime, self@.store(meta.lifetime)));
            return ;
        }
        let id = meta.identifier();
        let ghost pings = meta.ping_names();
        let ghost mut steps: Seq<Map<Seq<u8>, Seq<u8>>> = seq![self@.store(meta.lifetime)];
        let mut i: usize = 0;
        assert(self@ =~= self@.with_store(meta.lifetime, self@.store(meta.lifetime)));
        while i < meta.send_in_pings.len()
            invariant
                i <= meta.send_in_pings.len(),
                pings == meta.ping_names(),
                id@ == meta.spec_identifier(),
                forall|m: Option<Metric>| call_requires(*transform, (m,)),
                self.wf(),
                self@.initialized,
                self@ == old(self)@.with_store(meta.lifetime, self@.store(meta.lifetime)),
                steps.len() == i + 1,
                steps[0] == old(self)@.store(meta.lifetime),
                steps[i as int] == self@.store(meta.lifetime),
                forall|j: int|
                    0 <= j < i ==> transformed(
                        #[trigger] steps[j],
                        steps[j + 1],
                        key_of(meta.lifetime, pings[j], id@),
                        *transform,
                    ),
            decreases meta.send_in_pings.len() - i,
        {
            let ping = meta.send_in_pings[i].as_str();
            self.data_store.record_with(meta.lifetime, ping, id.as_str(), transform);
            proof {
                let earlier = steps;
                steps = steps.push(self@.store(meta.lifetime));
                assert(ping@ == pings[i as int]);
                assert forall|j: int| 0 <= j < i + 1 implies transformed(
                    #[trigger] steps[j],
                    steps[j + 1],
                    key_of(meta.lifetime, pings[j], id@),
                    *transform,
                ) by {
                    if j < i {
                        assert(steps[j] == earlier[j]);
                        assert(steps[j + 1] == earlier[j + 1]);
                    }
                }
            }
            i = i + 1;
        }
    }
}

} // verus!
