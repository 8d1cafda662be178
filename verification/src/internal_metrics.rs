//! The metrics that the library records about itself when it is initialized: whether
//! this is the first run, and the client identifier.

use vstd::prelude::*;
use vstd::utf8::{encode_utf8, encode_utf8_decode_utf8};
use crate::common_metric_data::{CommonMetricData, Lifetime};
use crate::database::{key_of, stored_value, transformed};
use crate::inner::{ping_keys, recorded_under, transformed_in_pings, CoordinatorState, Inner};
use crate::metrics::{encode_value, lemma_decode_encode, optional_value, Metric, MetricValue};

verus! {

/// Metadata of the first-run metric: `first_run`, kept for the user, sent in `core`.
pub fn first_run() -> (meta: CommonMetricData)
    ensures
        meta.category@ == Seq::<char>::empty(),
        meta.name@ == "first_run"@,
        meta.ping_names() == seq!["core"@],
        meta.lifetime == Lifetime::User,
{
    let mut pings: Vec<String> = Vec::new();
    pings.push("core".to_owned());
    let meta = CommonMetricData::new("", "first_run", pings, Lifetime::User);
    proof {
        reveal_strlit("");
        assert(""@ =~= Seq::<char>::empty());
        assert(meta.ping_names() =~= seq!["core"@]);
    }
    meta
}

/// Metadata of the client identifier: `client_id`, kept for the user, sent in `core`.
pub fn client_id() -> (meta: CommonMetricData)
    ensures
        meta.category@ == Seq::<char>::empty(),
        meta.name@ == "client_id"@,
        meta.ping_names() == seq!["core"@],
        meta.lifetime == Lifetime::User,
{
    let mut pings: Vec<String> = Vec::new();
    pings.push("core".to_owned());
    let meta = CommonMetricData::new("", "client_id", pings, Lifetime::User);
    proof {
        reveal_strlit("");
        assert(""@ =~= Seq::<char>::empty());
        assert(meta.ping_names() =~= seq!["core"@]);
    }
    meta
}

/// Storage key of the first-run metric.
pub open spec fn first_run_key() -> Seq<u8> {
    encode_utf8("first_run"@)
}

/// Storage key of the client identifier.
pub open spec fn client_id_key() -> Seq<u8> {
    encode_utf8("client_id"@)
}

/// The identifier to store: the one that is stored already, else the candidate.
pub open spec fn adopted(current: Option<MetricValue>, candidate: Seq<char>) -> MetricValue {
    match current {
        Some(MetricValue::Uuid(id)) => MetricValue::Uuid(id),
        _ => MetricValue::Uuid(candidate),
    }
}

/// A user store after the first-run metric is set to `first_run`.
pub open spec fn with_first_run(store: Map<Seq<u8>, Seq<u8>>, first_run: bool) -> Map<
    Seq<u8>,
    Seq<u8>,
> {
    store.insert(first_run_key(), encode_value(MetricValue::Boolean(first_run)))
}

/// A user store after the client identifier is generated where it is missing.
pub open spec fn with_client_id(store: Map<Seq<u8>, Seq<u8>>, candidate: Seq<char>) -> Map<
    Seq<u8>,
    Seq<u8>,
> {
    store.insert(
        client_id_key(),
        encode_value(adopted(stored_value(store, client_id_key()), candidate)),
    )
}

/// A user store after the bootstrap sequence.
pub open spec fn bootstrapped(
    store: Map<Seq<u8>, Seq<u8>>,
    first_run: bool,
    candidate: Seq<char>,
) -> Map<Seq<u8>, Seq<u8>> {
    with_client_id(with_first_run(store, first_run), candidate)
}

/// The coordinator state after the bootstrap sequence: the user store bootstrapped
/// where values are recorded, and the state as it was where they are dropped.
pub open spec fn after_bootstrap(
    state: CoordinatorState,
    first_run: bool,
    candidate: Seq<char>,
) -> CoordinatorState {
    if state.recording() {
        state.with_store(
            Lifetime::User,
            bootstrapped(state.store(Lifetime::User), first_run, candidate),
        )
    } else {
        state
    }
}

/// The two metrics have different storage keys.
pub proof fn lemma_keys_differ()
    ensures
        first_run_key() != client_id_key(),
{
    reveal_strlit("first_run");
    reveal_strlit("client_id");
    encode_utf8_decode_utf8("first_run"@);
    encode_utf8_decode_utf8("client_id"@);
    assert("first_run"@[0] == 'f');
    assert("client_id"@[0] == 'c');
}

/// A bootstrapped store holds a client identifier, and another bootstrap leaves that
/// identifier as it is, whatever candidate and first-run status it is given. An
/// identifier that was stored before the first bootstrap is the one that stays.
pub proof fn lemma_bootstrap_keeps_client_id(
    store: Map<Seq<u8>, Seq<u8>>,
    first_run: bool,
    candidate: Seq<char>,
    later_first_run: bool,
    later_candidate: Seq<char>,
)
    ensures
        stored_value(bootstrapped(store, first_run, candidate), client_id_key()) matches Some(
            MetricValue::Uuid(_),
        ),
        stored_value(
            bootstrapped(
                bootstrapped(store, first_run, candidate),
                later_first_run,
                later_candidate,
            ),
            client_id_key(),
        ) == stored_value(bootstrapped(store, first_run, candidate), client_id_key()),
        stored_value(store, client_id_key()) matches Some(MetricValue::Uuid(id)) ==> stored_value(
            bootstrapped(store, first_run, candidate),
            client_id_key(),
        ) == Some(MetricValue::Uuid(id)),
{
    lemma_keys_differ();
    let once = bootstrapped(store, first_run, candidate);
    let kept = adopted(stored_value(with_first_run(store, first_run), client_id_key()), candidate);
    lemma_decode_encode(kept);
    let again = with_first_run(once, later_first_run);
    let kept_again = adopted(stored_value(again, client_id_key()), later_candidate);
    lemma_decode_encode(kept_again);
}

/// The identifier to store: the one that is stored already, else the candidate.
pub fn keep_or_adopt(current: Option<Metric>, candidate: &str) -> (m: Metric)
    ensures
        m@ == adopted(optional_value(current), candidate@),
{
    match current {
        Some(Metric::Uuid(id)) => Metric::Uuid(id),
        _ => Metric::Uuid(candidate.to_owned()),
    }
}

/// Records whether this is the first run.
pub fn set_first_run(inner: &mut Inner, value: bool)
    requires
        old(inner).wf(),
    ensures
        final(inner).wf(),
        final(inner)@ == if old(inner)@.recording() {
            old(inner)@.with_store(
                Lifetime::User,
                with_first_run(old(inner)@.store(Lifetime::User), value),
            )
        } else {
            old(inner)@
        },
{
    let meta = first_run();
    inner.record_metric(&meta, &Metric::Boolean(value));
    proof {
        let before = old(inner)@.store(Lifetime::User);
        let pings = meta.ping_names();
        let keys = ping_keys(Lifetime::User, pings, meta.spec_identifier(), 1);
        let k = first_run_key();
        assert(k == key_of(Lifetime::User, pings[0], meta.spec_identifier()));
        assert forall|x: Seq<u8>| keys.contains(x) <==> x == k by {
            if x == k {
                assert(0 <= 0 < 1 && x == key_of(Lifetime::User, pings[0], meta.spec_identifier()));
            }
        }
        let value_bytes = encode_value(MetricValue::Boolean(value));
        assert(recorded_under(before, keys, value_bytes) =~= with_first_run(before, value));
    }
}

/// Stores `candidate` as the client identifier unless an identifier is stored already.
pub fn generate_client_id_if_missing(inner: &mut Inner, candidate: &str)
    requires
        old(inner).wf(),
    ensures
        final(inner).wf(),
        final(inner)@ == if old(inner)@.recording() {
            old(inner)@.with_store(
                Lifetime::User,
                with_client_id(old(inner)@.store(Lifetime::User), candidate@),
            )
        } else {
            old(inner)@
        },
{
    let meta = client_id();
    let transform = |current: Option<Metric>| -> (m: Metric)
        ensures
            m@ == adopted(optional_value(current), candidate@),
        { keep_or_adopt(current, candidate) };
    inner.record_metric_with(&meta, &transform);
    proof {
        if old(inner)@.recording() {
            let before = old(inner)@.store(Lifetime::User);
            let after = inner@.store(Lifetime::User);
            let pings = meta.ping_names();
            let id = meta.spec_identifier();
            let steps = choose|steps: Seq<Map<Seq<u8>, Seq<u8>>>|
                {
                    &&& steps.len() == pings.len() + 1
                    &&& steps[0] == before
                    &&& steps[pings.len() as int] == after
                    &&& forall|i: int|
                        0 <= i < pings.len() ==> transformed(
                            #[trigger] steps[i],
                            steps[i + 1],
                            key_of(Lifetime::User, pings[i], id),
                            transform,
                        )
                };
            assert(transformed(steps[0], steps[1], key_of(Lifetime::User, pings[0], id), transform));
            assert(key_of(Lifetime::User, pings[0], id) == client_id_key());
        }
    }
}

/// The bootstrap sequence on the coordinator state: records the first-run status,
/// then makes sure that a client identifier is stored.
pub fn initialize_core_metrics(inner: &mut Inner, first_run: bool, candidate: &str)
    requires
        old(inner).wf(),
    ensures
        final(inner).wf(),
        final(inner)@ == after_bootstrap(old(inner)@, first_run, candidate@),
{
    set_first_run(inner, first_run);
    generate_client_id_if_missing(inner, candidate);
}

} // verus!
