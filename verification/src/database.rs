//! The store adapter: one ordered store per lifetime, storage keys derived from
//! lifetime, ping name and metric key, values kept in their encoded form.

use vstd::prelude::*;
use vstd::string::StringSliceAdditionalSpecFns;
use vstd::utf8::encode_utf8;
use crate::common_metric_data::Lifetime;
use crate::keys::{build_storage_key, lemma_lex_asymmetric, lemma_lex_irreflexive, lex_lt, storage_key};
use crate::metrics::{decode_value, encode_value, lemma_decode_encode, optional_value, Metric,
    MetricValue};
use crate::store::{has_key, image_map, pairs_of, strictly_sorted, Entry, Store, Writer};

verus! {

/// What the storage engine held for each lifetime when it was opened.
#[derive(Clone, Debug, PartialEq, Eq)]
pub struct StoreImage {
    pub ping: Vec<Entry>,
    pub application: Vec<Entry>,
    pub user: Vec<Entry>,
}

impl StoreImage {
    /// The pairs that the image holds for `lifetime`, in the image's order.
    pub open spec fn pairs(&self, lifetime: Lifetime) -> Seq<(Seq<u8>, Seq<u8>)> {
        match lifetime {
            Lifetime::Ping => pairs_of(self.ping@),
            Lifetime::Application => pairs_of(self.application@),
            Lifetime::User => pairs_of(self.user@),
        }
    }
}

/// One stored key with the value that its bytes decode to.
#[derive(Clone, Debug, PartialEq, Eq)]
pub struct MetricEntry {
    pub key: Vec<u8>,
    pub metric: Metric,
}

impl View for MetricEntry {
    type V = (Seq<u8>, MetricValue);

    open spec fn view(&self) -> (Seq<u8>, MetricValue) {
        (self.key@, self.metric@)
    }
}

/// The storage key of metric key `key` recorded for `ping_name` under `lifetime`.
pub open spec fn key_of(lifetime: Lifetime, ping_name: Seq<char>, key: Seq<char>) -> Seq<u8> {
    storage_key(lifetime, encode_utf8(ping_name), encode_utf8(key))
}

/// One atomic read-modify-write of key `k`: `after` is `before` with the encoding of
/// what `transform` returned for the value stored under `k` stored there in its place.
pub open spec fn transformed<F: Fn(Option<Metric>) -> Metric>(
    before: Map<Seq<u8>, Seq<u8>>,
    after: Map<Seq<u8>, Seq<u8>>,
    k: Seq<u8>,
    transform: F,
) -> bool {
    exists|current: Option<Metric>, new: Metric|
        {
            &&& optional_value(current) == stored_value(before, k)
            &&& #[trigger] call_ensures(transform, (current,), new)
            &&& after == before.insert(k, encode_value(new@))
        }
}

/// The value stored under `k`: `None` where nothing is stored there, or where the
/// stored bytes decode to no value.
pub open spec fn stored_value(store: Map<Seq<u8>, Seq<u8>>, k: Seq<u8>) -> Option<MetricValue> {
    if store.contains_key(k) {
        decode_value(store[k])
    } else {
        None
    }
}

/// Whether a read of `store` from `start` may come upon key `k` with value `m`: `k` is
/// stored, is not less than `start`, and its bytes decode to `m`.
pub open spec fn may_visit(
    store: Map<Seq<u8>, Seq<u8>>,
    start: Seq<u8>,
    k: Seq<u8>,
    m: MetricValue,
) -> bool {
    store.contains_key(k) && !lex_lt(k, start) && decode_value(store[k]) == Some(m)
}

/// Whether some entry of `out` has key `k`.
pub open spec fn lists_key(out: Seq<MetricEntry>, k: Seq<u8>) -> bool {
    exists|i: int| 0 <= i < out.len() && #[trigger] out[i].key@ == k
}

/// What a read from `start` owes: the stored entries whose key is not less than
/// `start` and whose bytes decode, each once, in key order.
///
/// In words, clause by clause: keys strictly increase along `out`; no key of `out` is
/// less than `start`; each entry of `out` is a stored key with the value that its
/// bytes decode to; and every stored key that is not less than `start` and whose
/// bytes decode is a key of `out`.
pub open spec fn lists_from(
    out: Seq<MetricEntry>,
    store: Map<Seq<u8>, Seq<u8>>,
    start: Seq<u8>,
) -> bool {
    &&& forall|i: int, j: int|
        0 <= i < j < out.len() ==> lex_lt(#[trigger] out[i].key@, #[trigger] out[j].key@)
    &&& forall|i: int| 0 <= i < out.len() ==> !lex_lt(#[trigger] out[i].key@, start)
    &&& forall|i: int|
        0 <= i < out.len() ==> store.contains_key(#[trigger] out[i].key@) && decode_value(
            store[out[i].key@],
        ) == Some(out[i].metric@)
    &&& forall|k: Seq<u8>|
        #[trigger] store.contains_key(k) && !lex_lt(k, start) && decode_value(store[k]) is Some
            ==> lists_key(out, k)
}

/// Whether the visitor was called on the key and value of entry `e`.
pub open spec fn visited<F: FnMut(&[u8], &Metric)>(f: F, e: MetricEntry) -> bool {
    exists|k: &[u8], m: &Metric|
        k@ == e.key@ && m@ == e.metric@ && #[trigger] call_ensures(f, (k, m), ())
}

/// What a visit of `store` from `start` owes: the visitor was called on each entry of
/// the listing that a read from `start` gives, which `lists_from` fixes.
pub open spec fn visited_from<F: FnMut(&[u8], &Metric)>(
    f: F,
    store: Map<Seq<u8>, Seq<u8>>,
    start: Seq<u8>,
) -> bool {
    exists|entries: Seq<MetricEntry>|
        {
            &&& #[trigger] lists_from(entries, store, start)
            &&& forall|i: int| 0 <= i < entries.len() ==> visited(f, #[trigger] entries[i])
        }
}

/// One write transaction: `transaction_fn` was handed a transaction on `before` and
/// `after` is what it returned to be committed, or `before` where it returned `None`.
pub open spec fn transacted<F: FnOnce(Writer) -> Option<Writer>>(
    before: Map<Seq<u8>, Seq<u8>>,
    after: Map<Seq<u8>, Seq<u8>>,
    transaction_fn: F,
) -> bool {
    exists|w: Writer, out: Option<Writer>|
        {
            &&& w.wf()
            &&& w@ == before
            &&& #[trigger] call_ensures(transaction_fn, (w,), out)
            &&& after == match out {
                Some(done) => done@,
                None => before,
            }
        }
}

/// What a caller owes for a transaction function on a store that holds `contents`:
/// it can be called on a transaction over `contents`, and a transaction that it then
/// returns is well formed. It need accept no other transaction.
pub open spec fn transaction_fn_ok<F: FnOnce(Writer) -> Option<Writer>>(
    transaction_fn: F,
    contents: Map<Seq<u8>, Seq<u8>>,
) -> bool {
    &&& forall|w: Writer| w.wf() && w@ == contents ==> #[trigger] call_requires(transaction_fn, (w,))
    &&& forall|w: Writer, out: Option<Writer>|
        w.wf() && w@ == contents && #[trigger] call_ensures(transaction_fn, (w,), out) && out is Some
            ==> out.unwrap().wf()
}

/// What one call of `transform` makes of a stored value: handed a metric of value
/// `input` (nothing, where `input` is `None`), it returned a metric of value `output`.
pub open spec fn applied<F: Fn(Option<Metric>) -> Metric>(
    transform: F,
    input: Option<MetricValue>,
    output: Option<MetricValue>,
) -> bool {
    exists|current: Option<Metric>, new: Metric|
        {
            &&& optional_value(current) == input
            &&& #[trigger] call_ensures(transform, (current,), new)
            &&& output == Some(new@)
        }
}

/// A read-modify-write of key `k` leaves under `k` what the transform made of the
/// value that was stored there, and leaves every other key as it was.
pub proof fn lemma_transformed_value<F: Fn(Option<Metric>) -> Metric>(
    before: Map<Seq<u8>, Seq<u8>>,
    after: Map<Seq<u8>, Seq<u8>>,
    k: Seq<u8>,
    transform: F,
)
    requires
        transformed(before, after, k, transform),
    ensures
        applied(transform, stored_value(before, k), stored_value(after, k)),
        after.remove(k) == before.remove(k),
{
    let (current, new) = choose|current: Option<Metric>, new: Metric|
        {
            &&& optional_value(current) == stored_value(before, k)
            &&& #[trigger] call_ensures(transform, (current,), new)
            &&& after == before.insert(k, encode_value(new@))
        };
    lemma_decode_encode(new@);
    assert(after.remove(k) =~= before.remove(k));
}

/// Read-modify-writes of one key, one after the other, whoever made them: each works
/// on what the one before it left, so the value under the key at the end is what the
/// transforms make of the first value when applied in that order, and no update is
/// lost. No other key changes.
pub proof fn lemma_serial_transforms<F: Fn(Option<Metric>) -> Metric>(
    stores: Seq<Map<Seq<u8>, Seq<u8>>>,
    k: Seq<u8>,
    transforms: Seq<F>,
)
    requires
        stores.len() == transforms.len() + 1,
        forall|i: int|
            0 <= i < transforms.len() ==> transformed(
                #[trigger] stores[i],
                stores[i + 1],
                k,
                transforms[i],
            ),
    ensures
        forall|i: int|
            0 <= i < transforms.len() ==> applied(
                #[trigger] transforms[i],
                stored_value(stores[i], k),
                stored_value(stores[i + 1], k),
            ),
        stores.last().remove(k) == stores[0].remove(k),
    decreases transforms.len(),
{
    let n = transforms.len() as int;
    if n > 0 {
        let earlier = stores.drop_last();
        let fewer = transforms.drop_last();
        assert forall|i: int| 0 <= i < fewer.len() implies transformed(
            #[trigger] earlier[i],
            earlier[i + 1],
            k,
            fewer[i],
        ) by {
            assert(transformed(stores[i], stores[i + 1], k, transforms[i]));
        }
        lemma_serial_transforms(earlier, k, fewer);
        assert(transformed(stores[n - 1], stores[n], k, transforms[n - 1]));
        lemma_transformed_value(stores[n - 1], stores[n], k, transforms[n - 1]);
        assert(earlier.last() == stores[n - 1]);
        assert forall|i: int| 0 <= i < transforms.len() implies applied(
            #[trigger] transforms[i],
            stored_value(stores[i], k),
            stored_value(stores[i + 1], k),
        ) by {
            if i < n - 1 {
                assert(applied(
                    fewer[i],
                    stored_value(earlier[i], k),
                    stored_value(earlier[i + 1], k),
                ));
            }
        }
    }
}

/// A transaction whose function fails, whatever it staged before it failed, leaves
/// the store as it was: no staged write is visible.
pub proof fn lemma_failed_transaction_changes_nothing<F: FnOnce(Writer) -> Option<Writer>>(
    before: Map<Seq<u8>, Seq<u8>>,
    after: Map<Seq<u8>, Seq<u8>>,
    transaction_fn: F,
)
    requires
        transacted(before, after, transaction_fn),
        forall|w: Writer, out: Option<Writer>|
            #[trigger] call_ensures(transaction_fn, (w,), out) ==> out is None,
    ensures
        after == before,
{
}

/// A read from the empty start passes over no key: every stored entry whose bytes
/// decode is listed.
pub proof fn lemma_lists_all_from_empty_start(out: Seq<MetricEntry>, store: Map<Seq<u8>, Seq<u8>>)
    requires
        lists_from(out, store, Seq::<u8>::empty()),
    ensures
        forall|k: Seq<u8>|
            #[trigger] store.contains_key(k) && decode_value(store[k]) is Some ==> lists_key(out, k),
{
}

/// Keys strictly increase along the sequence.
pub open spec fn keys_increase(keys: Seq<Seq<u8>>) -> bool {
    forall|i: int, j: int| 0 <= i < j < keys.len() ==> lex_lt(#[trigger] keys[i], #[trigger] keys[j])
}

/// Two strictly increasing sequences of the same keys are the same sequence.
pub proof fn lemma_increasing_keys_determined(a: Seq<Seq<u8>>, b: Seq<Seq<u8>>)
    requires
        keys_increase(a),
        keys_increase(b),
        forall|k: Seq<u8>| a.contains(k) <==> b.contains(k),
    ensures
        a == b,
    decreases a.len(),
{
    if a.len() == 0 {
        if b.len() > 0 {
            assert(b.contains(b[0]));
        }
        assert(a =~= b);
    } else {
        assert(a.contains(a[0]));
        let j = choose|j: int| 0 <= j < b.len() && b[j] == a[0];
        assert(b.contains(b[0]));
        let i = choose|i: int| 0 <= i < a.len() && a[i] == b[0];
        lemma_lex_irreflexive(a[0]);
        if j > 0 {
            assert(lex_lt(b[0], b[j]));
            if i > 0 {
                assert(lex_lt(a[0], a[i]));
                lemma_lex_asymmetric(a[0], a[i]);
            }
        }
        assert(a[0] == b[0]);
        let ta = a.drop_first();
        let tb = b.drop_first();
        assert forall|x: int, y: int| 0 <= x < y < ta.len() implies lex_lt(
            #[trigger] ta[x],
            #[trigger] ta[y],
        ) by {
            assert(lex_lt(a[x + 1], a[y + 1]));
        }
        assert forall|x: int, y: int| 0 <= x < y < tb.len() implies lex_lt(
            #[trigger] tb[x],
            #[trigger] tb[y],
        ) by {
            assert(lex_lt(b[x + 1], b[y + 1]));
        }
        assert forall|k: Seq<u8>| ta.contains(k) <==> tb.contains(k) by {
            if ta.contains(k) {
                let x = choose|x: int| 0 <= x < ta.len() && ta[x] == k;
                assert(a[x + 1] == k);
                assert(lex_lt(a[0], a[x + 1]));
                assert(a.contains(k));
                let y = choose|y: int| 0 <= y < b.len() && b[y] == k;
                assert(y > 0);
                assert(tb[y - 1] == k);
            }
            if tb.contains(k) {
                let y = choose|y: int| 0 <= y < tb.len() && tb[y] == k;
                assert(b[y + 1] == k);
                assert(lex_lt(b[0], b[y + 1]));
                assert(b.contains(k));
                let x = choose|x: int| 0 <= x < a.len() && a[x] == k;
                assert(x > 0);
                assert(ta[x - 1] == k);
            }
        }
        lemma_increasing_keys_determined(ta, tb);
        assert(a =~= seq![a[0]] + ta);
        assert(b =~= seq![b[0]] + tb);
    }
}

/// A read is determined by the store and the start: any two listings that a read of
/// one store from one start may give hold the same keys and values in the same
/// order. So a read lists each entry once, and a second read of an unchanged store
/// lists what the first did.
pub proof fn lemma_listing_determined(
    a: Seq<MetricEntry>,
    b: Seq<MetricEntry>,
    store: Map<Seq<u8>, Seq<u8>>,
    start: Seq<u8>,
)
    requires
        lists_from(a, store, start),
        lists_from(b, store, start),
    ensures
        a.len() == b.len(),
        forall|i: int| 0 <= i < a.len() ==> #[trigger] a[i]@ == b[i]@,
{
    let ka = Seq::new(a.len(), |i: int| a[i].key@);
    let kb = Seq::new(b.len(), |i: int| b[i].key@);
    assert forall|i: int, j: int| 0 <= i < j < ka.len() implies lex_lt(
        #[trigger] ka[i],
        #[trigger] ka[j],
    ) by {
        assert(lex_lt(a[i].key@, a[j].key@));
    }
    assert forall|i: int, j: int| 0 <= i < j < kb.len() implies lex_lt(
        #[trigger] kb[i],
        #[trigger] kb[j],
    ) by {
        assert(lex_lt(b[i].key@, b[j].key@));
    }
    assert forall|k: Seq<u8>| ka.contains(k) <==> kb.contains(k) by {
        if ka.contains(k) {
            let i = choose|i: int| 0 <= i < ka.len() && ka[i] == k;
            assert(a[i].key@ == k);
            assert(store.contains_key(k));
            assert(lists_key(b, k));
            let j = choose|j: int| 0 <= j < b.len() && #[trigger] b[j].key@ == k;
            assert(kb[j] == k);
        }
        if kb.contains(k) {
            let j = choose|j: int| 0 <= j < kb.len() && kb[j] == k;
            assert(b[j].key@ == k);
            assert(store.contains_key(k));
            assert(lists_key(a, k));
            let i = choose|i: int| 0 <= i < a.len() && #[trigger] a[i].key@ == k;
            assert(ka[i] == k);
        }
    }
    lemma_increasing_keys_determined(ka, kb);
    assert forall|i: int| 0 <= i < a.len() implies #[trigger] a[i]@ == b[i]@ by {
        assert(ka[i] == kb[i]);
        assert(a[i].key@ == b[i].key@);
    }
}

/// A visit leaves nothing out: the visitor was called on every stored key that is not
/// less than the start and whose bytes decode, with the value that they decode to.
pub proof fn lemma_visits_every_entry<F: FnMut(&[u8], &Metric)>(
    f: F,
    store: Map<Seq<u8>, Seq<u8>>,
    start: Seq<u8>,
    key: Seq<u8>,
)
    requires
        visited_from(f, store, start),
        store.contains_key(key),
        !lex_lt(key, start),
        decode_value(store[key]) is Some,
    ensures
        exists|k: &[u8], m: &Metric|
            k@ == key && Some(m@) == decode_value(store[key]) && #[trigger] call_ensures(
                f,
                (k, m),
                (),
            ),
{
    let entries = choose|entries: Seq<MetricEntry>|
        {
            &&& #[trigger] lists_from(entries, store, start)
            &&& forall|i: int| 0 <= i < entries.len() ==> visited(f, #[trigger] entries[i])
        };
    assert(lists_key(entries, key));
    let i = choose|i: int| 0 <= i < entries.len() && #[trigger] entries[i].key@ == key;
    assert(visited(f, entries[i]));
}

/// The store adapter. Until it is opened it is inert: it holds nothing, and writes
/// to it are dropped.
#[derive(Debug)]
pub struct Database {
    open: bool,
    ping: Store,
    application: Store,
    user: Store,
}

impl Database {
    /// Whether the adapter has been opened.
    pub closed spec fn opened(&self) -> bool {
        self.open
    }

    /// What the store of `lifetime` holds: raw value by storage key.
    pub closed spec fn store(&self, lifetime: Lifetime) -> Map<Seq<u8>, Seq<u8>> {
        match lifetime {
            Lifetime::Ping => self.ping@,
            Lifetime::Application => self.application@,
            Lifetime::User => self.user@,
        }
    }

    /// The three stores are well formed, and an adapter that is not open holds nothing.
    pub closed spec fn wf(&self) -> bool {
        &&& self.ping.wf()
        &&& self.application.wf()
        &&& self.user.wf()
        &&& !self.open ==> forall|l: Lifetime| self.store(l) == Map::<Seq<u8>, Seq<u8>>::empty()
    }

    /// An adapter that is not open holds nothing.
    pub proof fn lemma_inert_holds_nothing(&self, lifetime: Lifetime)
        requires
            self.wf(),
            !self.opened(),
        ensures
            self.store(lifetime) == Map::<Seq<u8>, Seq<u8>>::empty(),
    {
    }

    /// An inert adapter.
    pub fn new() -> (db: Database)
        ensures
            db.wf(),
            !db.opened(),
            forall|l: Lifetime| db.store(l) == Map::<Seq<u8>, Seq<u8>>::empty(),
    {
        Database { open: false, ping: Store::new(), application: Store::new(), user: Store::new() }
    }

    /// Whether the adapter has been opened.
    pub fn is_open(&self) -> (b: bool)
        ensures
            b == self.opened(),
    {
        self.open
    }

    /// Opens the adapter on what the storage engine held. Each store then holds the
    /// image's pairs for its lifetime; where the image gives a key twice, the later
    /// value stays.
    pub fn initialize(&mut self, image: &StoreImage)
        ensures
            final(self).wf(),
            final(self).opened(),
            forall|l: Lifetime| final(self).store(l) == image_map(image.pairs(l)),
    {
        self.ping = Store::from_entries(&image.ping);
        self.application = Store::from_entries(&image.application);
        self.user = Store::from_entries(&image.user);
        self.open = true;
    }

    fn store_ref(&self, lifetime: Lifetime) -> (s: &Store)
        requires
            self.wf(),
        ensures
            s.wf(),
            s@ == self.store(lifetime),
    {
        match lifetime {
            Lifetime::Ping => &self.ping,
            Lifetime::Application => &self.application,
            Lifetime::User => &self.user,
        }
    }

    fn put_raw(&mut self, lifetime: Lifetime, key: Vec<u8>, value: Vec<u8>)
        requires
            old(self).wf(),
            old(self).opened(),
        ensures
            final(self).wf(),
            final(self).opened(),
            final(self).store(lifetime) == old(self).store(lifetime).insert(key@, value@),
            forall|l: Lifetime| l != lifetime ==> final(self).store(l) == old(self).store(l),
    {
        match lifetime {
            Lifetime::Ping => self.ping.put(key, value),
            Lifetime::Application => self.application.put(key, value),
            Lifetime::User => self.user.put(key, value),
        }
    }

    fn replace_store(&mut self, lifetime: Lifetime, store: Store)
        requires
            old(self).wf(),
            old(self).opened(),
            store.wf(),
        ensures
            final(self).wf(),
            final(self).opened(),
            final(self).store(lifetime) == store@,
            forall|l: Lifetime| l != lifetime ==> final(self).store(l) == old(self).store(l),
    {
        match lifetime {
            Lifetime::Ping => {
                self.ping = store;
            },
            Lifetime::Application => {
                self.application = store;
            },
            Lifetime::User => {
                self.user = store;
            },
        }
    }

    /// Stores `metric` under the storage key of `(lifetime, ping_name, key)`,
    /// replacing what was stored there. An adapter that is not open drops the write.
    pub fn record(&mut self, lifetime: Lifetime, ping_name: &str, key: &str, metric: &Metric)
        requires
            old(self).wf(),
        ensures
            final(self).wf(),
            final(self).opened() == old(self).opened(),
            forall|l: Lifetime| l != lifetime ==> final(self).store(l) == old(self).store(l),
            final(self).store(lifetime) == if old(self).opened() {
                old(self).store(lifetime).insert(
                    key_of(lifetime, ping_name@, key@),
                    encode_value(metric@),
                )
            } else {
                old(self).store(lifetime)
            },
    {
        if !self.open {
            return ;
        }
        let k = build_storage_key(lifetime, ping_name.as_bytes(), key.as_bytes());
        let v = metric.encode();
        self.put_raw(lifetime, k, v);
    }

    /// Reads the value stored under the storage key of `(lifetime, ping_name, key)`,
    /// hands it to `transform` (`None` where nothing is stored there or the stored
    /// bytes decode to no value), and stores what `transform` returns under the same
    /// key. An adapter that is not open does nothing and does not call `transform`.
    /// The transform is called once, on the stored value: it need accept no other.
    pub fn record_with<F>(&mut self, lifetime: Lifetime, ping_name: &str, key: &str, transform: &F) where
        F: Fn(Option<Metric>) -> Metric,

        requires
            old(self).wf(),
            old(self).opened() ==> forall|m: Option<Metric>|
                optional_value(m) == stored_value(
                    old(self).store(lifetime),
                    key_of(lifetime, ping_name@, key@),
                ) ==> #[trigger] call_requires(*transform, (m,)),
        ensures
            final(self).wf(),
            final(self).opened() == old(self).opened(),
            forall|l: Lifetime| l != lifetime ==> final(self).store(l) == old(self).store(l),
            !old(self).opened() ==> final(self).store(lifetime) == old(self).store(lifetime),
            old(self).opened() ==> transformed(
                old(self).store(lifetime),
                final(self).store(lifetime),
                key_of(lifetime, ping_name@, key@),
                *transform,
            ),
    {
        if !self.open {
            return ;
        }
        let k = build_storage_key(lifetime, ping_name.as_bytes(), key.as_bytes());
        let current: Option<Metric> = match self.store_ref(lifetime).get(k.as_slice()) {
            Some(raw) => Metric::decode(raw.as_slice()),
            None => None,
        };
        let ghost given = current;
        let new = transform(current);
        let ghost made = new;
        let v = new.encode();
        self.put_raw(lifetime, k, v);
        assert(call_ensures(*transform, (given,), made));
    }

    /// The stored entries of `lifetime` whose key is not less than `iter_start` and
    /// whose bytes decode to a value, in key order. Entries whose bytes decode to no
    /// value are passed over.
    pub fn entries_from(&self, lifetime: Lifetime, iter_start: &str) -> (out: Vec<MetricEntry>)
        requires
            self.wf(),
        ensures
            lists_from(out@, self.store(lifetime), encode_utf8(iter_start@)),
    {
        let store = self.store_ref(lifetime);
        let raw = store.entries_from(iter_start.as_bytes());
        let ghost start = iter_start.spec_bytes();
        let ghost m = self.store(lifetime);
        let ghost p = pairs_of(raw@);
        let mut out: Vec<MetricEntry> = Vec::new();
        let mut i: usize = 0;
        while i < raw.len()
            invariant
                i <= raw.len(),
                p == pairs_of(raw@),
                strictly_sorted(p),
                forall|a: int| 0 <= a < raw.len() ==> !lex_lt(#[trigger] raw[a].key@, start),
                forall|a: int|
                    0 <= a < raw.len() ==> m.contains_key(#[trigger] raw[a].key@) && m[raw[a].key@]
                        == raw[a].value@,
                forall|a: int, b: int|
                    0 <= a < b < out.len() ==> lex_lt(#[trigger] out[a].key@, #[trigger] out[b].key@),
                forall|a: int, b: int|
                    0 <= a < out.len() && i <= b < raw.len() ==> lex_lt(
                        #[trigger] out[a].key@,
                        #[trigger] raw[b].key@,
                    ),
                forall|a: int| 0 <= a < out.len() ==> !lex_lt(#[trigger] out[a].key@, start),
                forall|a: int|
                    0 <= a < out.len() ==> m.contains_key(#[trigger] out[a].key@) && decode_value(
                        m[out[a].key@],
                    ) == Some(out[a].metric@),
                forall|b: int|
                    0 <= b < i && decode_value(raw[b].value@) is Some ==> lists_key(
                        out@,
                        #[trigger] raw[b].key@,
                    ),
            decreases raw.len() - i,
        {
            let e = &raw[i];
            let ghost before = out@;
            match Metric::decode(e.value.as_slice()) {
                Some(metric) => {
                    let key = crate::store::copy_bytes(e.key.as_slice());
                    out.push(MetricEntry { key, metric });
                    proof {
                        let n = before.len() as int;
                        assert(out[n].key@ == raw[i as int].key@);
                        assert forall|a: int, b: int|
                            0 <= a < out.len() && i + 1 <= b < raw.len() implies lex_lt(
                            #[trigger] out[a].key@,
                            #[trigger] raw[b].key@,
                        ) by {
                            if a == n {
                                assert(lex_lt(p[i as int].0, p[b].0));
                            } else {
                                assert(out[a] == before[a]);
                            }
                        }
                        assert forall|a: int, b: int| 0 <= a < b < out.len() implies lex_lt(
                            #[trigger] out[a].key@,
                            #[trigger] out[b].key@,
                        ) by {
                            assert(out[a] == before[a]);
                            if b < n {
                                assert(out[b] == before[b]);
                            }
                        }
                        assert forall|b: int|
                            0 <= b < i + 1 && decode_value(raw[b].value@) is Some implies lists_key(
                            out@,
                            #[trigger] raw[b].key@,
                        ) by {
                            if b < i {
                                assert(lists_key(before, raw[b].key@));
                                let a = choose|a: int|
                                    0 <= a < before.len() && #[trigger] before[a].key@
                                        == raw[b].key@;
                                assert(out[a] == before[a]);
                                assert(out[a].key@ == raw[b].key@);
                            } else {
                                assert(out[n].key@ == raw[b].key@);
                            }
                        }
                    }
                },
                None => {
                    assert(decode_value(raw[i as int].value@) is None);
                },
            }
            i = i + 1;
        }
        proof {
            assert forall|k: Seq<u8>|
                #[trigger] m.contains_key(k) && !lex_lt(k, start) && decode_value(m[k]) is Some implies lists_key(
                out@,
                k,
            ) by {
                assert(has_key(p, k));
                let b = choose|b: int| 0 <= b < p.len() && #[trigger] p[b].0 == k;
                assert(raw[b].key@ == k);
            }
        }
        out
    }

    /// Calls `transaction_fn` on each entry that `entries_from` lists, in that order:
    /// on every stored entry of `lifetime` whose key is not less than `iter_start` and
    /// whose bytes decode to a value. The function is called on nothing else: it need
    /// only accept a stored key that is not less than `iter_start`, with the value
    /// that the key's bytes decode to.
    pub fn iter_store_from<F>(&self, lifetime: Lifetime, iter_start: &str, mut transaction_fn: F) where
        F: FnMut(&[u8], &Metric),

        requires
            self.wf(),
            forall|k: &[u8], m: &Metric|
                may_visit(self.store(lifetime), encode_utf8(iter_start@), k@, m@) ==> #[trigger] call_requires(
                    transaction_fn,
                    (k, m),
                ),
        ensures
            visited_from(transaction_fn, self.store(lifetime), encode_utf8(iter_start@)),
    {
        let entries = self.entries_from(lifetime, iter_start);
        let ghost visitor = transaction_fn;
        let mut i: usize = 0;
        while i < entries.len()
            invariant
                i <= entries.len(),
                transaction_fn == visitor,
                forall|j: int| 0 <= j < i ==> visited(visitor, #[trigger] entries[j]),
                lists_from(entries@, self.store(lifetime), encode_utf8(iter_start@)),
                forall|k: &[u8], m: &Metric|
                    may_visit(self.store(lifetime), encode_utf8(iter_start@), k@, m@)
                        ==> #[trigger] call_requires(transaction_fn, (k, m)),
            decreases entries.len() - i,
        {
            let e = &entries[i];
            assert(may_visit(
                self.store(lifetime),
                encode_utf8(iter_start@),
                entries[i as int].key@,
                entries[i as int].metric@,
            ));
            let key = e.key.as_slice();
            let metric = &e.metric;
            transaction_fn(key, metric);
            assert(visited(visitor, entries[i as int])) by {
                assert(call_ensures(visitor, (key, metric), ()));
            }
            i = i + 1;
        }
    }

    /// Runs `transaction_fn` on a write transaction over the store of `store_name`.
    /// What the function returns is committed; where it returns `None`, the
    /// transaction is discarded and the store stays as it was. An adapter that is
    /// not open does nothing and does not call `transaction_fn`.
    pub fn write_with_store<F>(&mut self, store_name: Lifetime, transaction_fn: F) where
        F: FnOnce(Writer) -> Option<Writer>,

        requires
            old(self).wf(),
            old(self).opened() ==> transaction_fn_ok(transaction_fn, old(self).store(store_name)),
        ensures
            final(self).wf(),
            final(self).opened() == old(self).opened(),
            forall|l: Lifetime| l != store_name ==> final(self).store(l) == old(self).store(l),
            !old(self).opened() ==> final(self).store(store_name) == old(self).store(store_name),
            old(self).opened() ==> transacted(
                old(self).store(store_name),
                final(self).store(store_name),
                transaction_fn,
            ),
    {
        if !self.open {
            return ;
        }
        let writer = Writer::begin(self.store_ref(store_name));
        let ghost given = writer;
        let outcome = transaction_fn(writer);
        let ghost got = outcome;
        match outcome {
            Some(done) => {
                let store = done.commit();
                self.replace_store(store_name, store);
            },
            None => {},
        }
        assert(call_ensures(transaction_fn, (given,), got));
    }

    /// Copies of the raw pairs that the store of `lifetime` holds, in key order:
    /// what a storage engine has to keep so that the store can be opened again.
    pub fn snapshot(&self, lifetime: Lifetime) -> (out: Vec<Entry>)
        requires
            self.wf(),
        ensures
            strictly_sorted(pairs_of(out@)),
            image_map(pairs_of(out@)) == self.store(lifetime),
    {
        let store = self.store_ref(lifetime);
        let copy = store.duplicate();
        let out = copy.into_entries();
        out
    }
}

} // verus!
